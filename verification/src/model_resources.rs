//! Caller-bound model files and the deliberately narrow library profile that
//! browser simulation accepts. Resource bodies never become circuit data.
use crate::ir::views;
use crate::erc::join;
use crate::hashing::sha256_hex_spec;
use crate::ir::{ModelDefinition, ModelRef, SimulatorCompatibility};
use crate::models::{
    bound_bytes, valid_reference, validate_external_resource_reference, ExternalModelResources,
    MAX_EXTERNAL_MODEL_BYTES,
};
use crate::text::{
    pair_views,
    append_str, has_text, ascii_upper_char, chars_of, contains_text, eq_ignore_case, lower, text_lt, upper, words, find_next, is_control, lemma_next_char, lemma_utf8_len_concat,
    lemma_utf8_len_subrange, next_char, owned, push_char, string_of, trim,
    trim_bounds, utf8_len,
};
use vstd::prelude::*;

verus! {

pub const MAX_BOUND_RESOURCE_BYTES: usize = 33554432;

pub const MAX_BOUND_RESOURCES: usize = 64;

/// Longest logical library statement, in bytes.
pub const MAX_STATEMENT_BYTES: usize = 32768;

/// Most logical statements in one library.
pub const MAX_LIBRARY_STATEMENTS: usize = 100000;

// ---------------------------------------------------------------------------
// Logical statements of a SPICE library.

/// Number of byte-order marks at the start of the text.
pub open spec fn bom_count(s: Seq<char>) -> int
    decreases s.len(),
{
    if s.len() > 0 && s[0] == '\u{feff}' {
        1 + bom_count(s.drop_first())
    } else {
        0
    }
}

/// A control character other than a tab.
pub open spec fn has_control(line: Seq<char>) -> bool {
    exists|i: int| 0 <= i < line.len() && is_control(#[trigger] line[i]) && line[i] != '\t'
}

/// One trimmed physical line added to the statements read so far: blank and
/// `*` comment lines are skipped, a `+` line continues the last statement.
pub open spec fn add_line(acc: Seq<Seq<char>>, line: Seq<char>) -> Result<Seq<Seq<char>>, Seq<char>> {
    if line.len() == 0 || line[0] == '*' {
        Ok(acc)
    } else if utf8_len(line) > MAX_STATEMENT_BYTES || acc.len() >= MAX_LIBRARY_STATEMENTS {
        Err("Model library exceeds statement/line bounds"@)
    } else if has_control(line) {
        Err("Model library contains control characters"@)
    } else if line[0] == '+' {
        if acc.len() == 0 {
            Err("Model continuation has no preceding statement"@)
        } else if utf8_len(acc.last()) + utf8_len(line.drop_first()) + 1 > MAX_STATEMENT_BYTES {
            Err("Model logical statement exceeds 32 KiB"@)
        } else {
            Ok(acc.drop_last().push(acc.last() + seq![' '] + trim(line.drop_first())))
        }
    } else {
        Ok(acc.push(line))
    }
}

/// The statements of the lines of `s[start..]`, after those in `acc`. Lines
/// end at `\n`; trimming removes the `\r` of a `\r\n` ending.
pub open spec fn statements_from(s: Seq<char>, start: int, acc: Seq<Seq<char>>) -> Result<
    Seq<Seq<char>>,
    Seq<char>,
>
    decreases s.len() - start,
    when 0 <= start <= s.len()
{
    let k = next_char(s, '\n', start);
    proof {
        lemma_next_char(s, '\n', start);
    }
    match add_line(acc, trim(s.subrange(start, k))) {
        Err(e) => Err(e),
        Ok(acc2) => if k >= s.len() {
            Ok(acc2)
        } else {
            statements_from(s, k + 1, acc2)
        },
    }
}

/// The logical statements of a library text with its byte-order marks removed.
pub open spec fn library_statements_spec(text: Seq<char>) -> Result<Seq<Seq<char>>, Seq<char>> {
    statements_from(text, bom_count(text), seq![])
}

/// Every statement fits the statement byte limit.
pub open spec fn statements_bounded(acc: Seq<Seq<char>>) -> bool {
    forall|i: int| 0 <= i < acc.len() ==> utf8_len(#[trigger] acc[i]) <= MAX_STATEMENT_BYTES
}

proof fn lemma_bom_count(s: Seq<char>, n: int)
    requires
        0 <= n <= s.len(),
        forall|i: int| 0 <= i < n ==> s[i] == '\u{feff}',
        n < s.len() ==> s[n] != '\u{feff}',
    ensures
        bom_count(s) == n,
    decreases n,
{
    if n > 0 {
        assert forall|i: int| 0 <= i < n - 1 implies s.drop_first()[i] == '\u{feff}' by {
            assert(s.drop_first()[i] == s[i + 1]);
        }
        if n < s.len() {
            assert(s.drop_first()[n - 1] == s[n]);
        }
        lemma_bom_count(s.drop_first(), n - 1);
    }
}

fn control_in(cs: &Vec<char>) -> (r: bool)
    ensures
        r == has_control(cs@),
{
    let mut i: usize = 0;
    while i < cs.len()
        invariant
            i <= cs.len(),
            forall|j: int| 0 <= j < i ==> !(is_control(#[trigger] cs@[j]) && cs@[j] != '\t'),
        decreases cs.len() - i,
    {
        if crate::text::is_control_exec(cs[i]) && cs[i] != '\t' {
            return true;
        }
        i = i + 1;
    }
    false
}

fn add_line_exec(acc: &mut Vec<String>, line: String) -> (r: Result<(), String>)
    requires
        statements_bounded(views(old(acc)@)),
    ensures
        match add_line(views(old(acc)@), line@) {
            Ok(v) => r is Ok && views(final(acc)@) == v && statements_bounded(v),
            Err(e) => r matches Err(m) && m@ == e,
        },
{
    let ghost before = views(acc@);
    let lc = chars_of(line.as_str());
    if lc.len() == 0 || lc[0] == '*' {
        return Ok(());
    }
    let n = crate::text::byte_len_capped(&lc, MAX_STATEMENT_BYTES);
    if n > MAX_STATEMENT_BYTES || acc.len() >= MAX_LIBRARY_STATEMENTS {
        return Err(owned("Model library exceeds statement/line bounds"));
    }
    if control_in(&lc) {
        return Err(owned("Model library contains control characters"));
    }
    if lc[0] == '+' {
        if acc.len() == 0 {
            return Err(owned("Model continuation has no preceding statement"));
        }
        let prev = acc.pop().unwrap();
        assert(prev@ == before.last());
        assert(views(acc@) =~= before.drop_last());
        let cont = string_of(&lc, 1, lc.len());
        assert(cont@ =~= line@.drop_first());
        proof {
            assert(utf8_len(before[before.len() - 1]) <= MAX_STATEMENT_BYTES);
        }
        let pc = chars_of(prev.as_str());
        let cc = chars_of(cont.as_str());
        let prev_bytes = crate::text::byte_len_capped(&pc, MAX_STATEMENT_BYTES);
        let cont_bytes = crate::text::byte_len_capped(&cc, MAX_STATEMENT_BYTES);
        if prev_bytes + cont_bytes + 1 > MAX_STATEMENT_BYTES {
            return Err(owned("Model logical statement exceeds 32 KiB"));
        }
        let tail = crate::text::trimmed(cont.as_str());
        let mut merged = prev;
        push_char(&mut merged, ' ');
        append_str(&mut merged, tail.as_str());
        proof {
            let t = trim(cont@);
            lemma_trim_bytes(cont@);
            lemma_utf8_len_concat(before.last(), seq![' ']);
            lemma_utf8_len_concat(before.last() + seq![' '], t);
            assert(utf8_len(seq![' ']) == 1) by {
                crate::text::lemma_utf8_len_push(Seq::<char>::empty(), ' ');
                crate::text::lemma_utf8_len_empty(Seq::<char>::empty());
                assert(Seq::<char>::empty().push(' ') =~= seq![' ']);
            }
        }
        assert(merged@ =~= before.last() + seq![' '] + trim(line@.drop_first()));
        let ghost popped = views(acc@);
        acc.push(merged);
        proof {
            assert(views(acc@) =~= popped.push(before.last() + seq![' '] + trim(line@.drop_first())));
            assert(views(acc@) =~= before.drop_last().push(before.last() + seq![' '] + trim(line@.drop_first())));
            assert forall|i: int| 0 <= i < views(acc@).len() implies utf8_len(#[trigger] views(acc@)[i])
                <= MAX_STATEMENT_BYTES by {
                if i < before.len() - 1 {
                    assert(views(acc@)[i] == before[i]);
                }
            }
        }
        Ok(())
    } else {
        acc.push(line);
        proof {
            assert(views(acc@) =~= before.push(lc@));
            assert forall|i: int| 0 <= i < views(acc@).len() implies utf8_len(#[trigger] views(acc@)[i])
                <= MAX_STATEMENT_BYTES by {
                if i < before.len() {
                    assert(views(acc@)[i] == before[i]);
                }
            }
        }
        Ok(())
    }
}

/// Trimming never adds bytes.
proof fn lemma_trim_bytes(s: Seq<char>)
    ensures
        utf8_len(trim(s)) <= utf8_len(s),
{
    crate::text::lemma_leading_white_bound(s);
    let t = crate::text::trim_start(s);
    crate::text::lemma_trailing_white_bound(t);
    lemma_utf8_len_subrange(s, crate::text::leading_white(s) as int, s.len() as int);
    assert(t =~= s.subrange(crate::text::leading_white(s) as int, s.len() as int));
    lemma_utf8_len_subrange(t, 0, t.len() - crate::text::trailing_white(t));
    assert(trim(s) =~= t.subrange(0, t.len() - crate::text::trailing_white(t)));
}

/// Joins `+` continuation lines and drops blank and comment lines; each
/// statement is trimmed, bounded in length, and free of control characters
/// other than tabs.
pub fn library_statements(text: &str) -> (r: Result<Vec<String>, String>)
    ensures
        match library_statements_spec(text@) {
            Ok(v) => r matches Ok(x) && views(x@) == v,
            Err(e) => r matches Err(m) && m@ == e,
        },
{
    let cs = chars_of(text);
    let mut start: usize = 0;
    while start < cs.len() && cs[start] == '\u{feff}'
        invariant
            start <= cs.len(),
            forall|i: int| 0 <= i < start ==> cs@[i] == '\u{feff}',
        decreases cs.len() - start,
    {
        start = start + 1;
    }
    proof {
        lemma_bom_count(cs@, start as int);
    }
    let mut acc: Vec<String> = Vec::new();
    assert(views(acc@) =~= Seq::<Seq<char>>::empty());
    loop
        invariant
            start <= cs.len(),
            cs@ == text@,
            statements_bounded(views(acc@)),
            statements_from(cs@, start as int, views(acc@)) == library_statements_spec(text@),
        decreases cs.len() - start,
    {
        let k = find_next(&cs, '\n', start);
        proof {
            lemma_next_char(cs@, '\n', start as int);
        }
        let (a, b) = trim_bounds(&cs, start, k);
        let line = string_of(&cs, a, b);
        match add_line_exec(&mut acc, line) {
            Err(m) => {
                return Err(m);
            },
            Ok(()) => {},
        }
        if k >= cs.len() {
            return Ok(acc);
        }
        start = k + 1;
    }
}

// ---------------------------------------------------------------------------
// Bound resources.

/// The checks of bound files from the `i`-th on, with `total` bytes before.
pub open spec fn bindings_from(es: Seq<(Seq<char>, Seq<u8>)>, i: int, total: int) -> Result<(), Seq<char>>
    decreases es.len() - i,
{
    if i >= es.len() || i < 0 {
        Ok(())
    } else if !valid_reference(es[i].0) {
        Err("file must be a source-relative forward-slash path without traversal or control characters"@)
    } else if es[i].1.len() > MAX_EXTERNAL_MODEL_BYTES {
        Err("'"@ + es[i].0 + "' exceeds the 16 MiB model limit"@)
    } else if total + es[i].1.len() > MAX_BOUND_RESOURCE_BYTES {
        Err("Local model resources exceed the 32 MiB combined limit"@)
    } else {
        bindings_from(es, i + 1, total + es[i].1.len())
    }
}

/// At most 64 files, each a plain relative reference of at most 16 MiB, and
/// at most 32 MiB in all; files are checked in name order.
pub open spec fn resource_bindings_spec(es: Seq<(Seq<char>, Seq<u8>)>) -> Result<(), Seq<char>> {
    if es.len() > MAX_BOUND_RESOURCES {
        Err("At most 64 local model resources may be bound"@)
    } else {
        bindings_from(es, 0, 0)
    }
}

/// The bytes of the files from the `i`-th on.
pub open spec fn bytes_from(es: Seq<(Seq<char>, Seq<u8>)>, i: int) -> int
    decreases es.len() - i,
{
    if i < 0 || i >= es.len() {
        0
    } else {
        es[i].1.len() + bytes_from(es, i + 1)
    }
}

/// Each file from the `i`-th on has a plain relative name and at most 16 MiB.
pub open spec fn files_fit(es: Seq<(Seq<char>, Seq<u8>)>, i: int) -> bool {
    forall|j: int| i <= j < es.len() ==> valid_reference((#[trigger] es[j]).0) && es[j].1.len() <= MAX_EXTERNAL_MODEL_BYTES
}

proof fn lemma_bindings_from(es: Seq<(Seq<char>, Seq<u8>)>, i: int, total: int)
    requires
        0 <= i <= es.len(),
        0 <= total <= MAX_BOUND_RESOURCE_BYTES,
    ensures
        bindings_from(es, i, total) is Ok <==> files_fit(es, i) && total + bytes_from(es, i) <= MAX_BOUND_RESOURCE_BYTES,
        bytes_from(es, i) >= 0,
    decreases es.len() - i,
{
    if i < es.len() {
        if !valid_reference(es[i].0) || es[i].1.len() > MAX_EXTERNAL_MODEL_BYTES {
            lemma_bytes_from_nonneg(es, i + 1);
        } else if total + es[i].1.len() > MAX_BOUND_RESOURCE_BYTES {
            lemma_bytes_from_nonneg(es, i + 1);
        } else {
            lemma_bindings_from(es, i + 1, total + es[i].1.len());
            if files_fit(es, i + 1) {
                assert forall|j: int| i <= j < es.len() implies valid_reference((#[trigger] es[j]).0) && es[j].1.len()
                    <= MAX_EXTERNAL_MODEL_BYTES by {
                    if j > i {
                        assert(files_fit(es, i + 1));
                    }
                }
            }
        }
    }
}

proof fn lemma_bytes_from_nonneg(es: Seq<(Seq<char>, Seq<u8>)>, i: int)
    ensures
        bytes_from(es, i) >= 0,
    decreases es.len() - i,
{
    if 0 <= i < es.len() {
        lemma_bytes_from_nonneg(es, i + 1);
    }
}

/// Bound files are accepted exactly when there are at most 64 of them, each
/// has a plain source-relative name and at most 16 MiB, and all together
/// hold at most 32 MiB.
pub proof fn lemma_bindings_accepted_iff(es: Seq<(Seq<char>, Seq<u8>)>)
    ensures
        resource_bindings_spec(es) is Ok <==> es.len() <= MAX_BOUND_RESOURCES && files_fit(es, 0) && bytes_from(es, 0)
            <= MAX_BOUND_RESOURCE_BYTES,
{
    lemma_bindings_from(es, 0, 0);
}

/// Checks the number, names and sizes of the caller-bound model files.
pub fn validate_resource_bindings(resources: &ExternalModelResources) -> (r: Result<(), String>)
    ensures
        match resource_bindings_spec(resources@) {
            Ok(()) => r is Ok,
            Err(e) => r matches Err(m) && m@ == e,
        },
{
    let n = resources.len();
    if n > MAX_BOUND_RESOURCES {
        return Err(owned("At most 64 local model resources may be bound"));
    }
    let mut total: usize = 0;
    let mut i: usize = 0;
    while i < n
        invariant
            i <= n == resources@.len(),
            total <= MAX_BOUND_RESOURCE_BYTES,
            bindings_from(resources@, i as int, total as int) == resource_bindings_spec(resources@),
        decreases n - i,
    {
        let (name, bytes) = resources.entry(i);
        match validate_external_resource_reference(name.as_str()) {
            Err(m) => {
                return Err(m);
            },
            Ok(()) => {},
        }
        if bytes.len() > MAX_EXTERNAL_MODEL_BYTES {
            let mut m = owned("'");
            append_str(&mut m, name.as_str());
            append_str(&mut m, "' exceeds the 16 MiB model limit");
            return Err(m);
        }
        total = match total.checked_add(bytes.len()) {
            Some(t) => t,
            None => {
                return Err(owned("Model resource size overflow"));
            },
        };
        if total > MAX_BOUND_RESOURCE_BYTES {
            return Err(owned("Local model resources exceed the 32 MiB combined limit"));
        }
        i = i + 1;
    }
    Ok(())
}


// ---------------------------------------------------------------------------
// The browser library profile.

/// A library text that mentions file, shell, control or plug-in loading.
pub open spec fn forbidden_text(low: Seq<char>) -> bool {
    ||| contains_text(low, "file"@)
    ||| contains_text(low, "pwl_file"@)
    ||| contains_text(low, "shell"@)
    ||| contains_text(low, ".control"@)
    ||| contains_text(low, ".include"@)
    ||| contains_text(low, ".lib"@)
    ||| contains_text(low, "osdi"@)
    ||| contains_text(low, "pre_osdi"@)
}

/// The part of a word before its first `(`.
pub open spec fn before_paren(w: Seq<char>) -> Seq<char> {
    w.take(next_char(w, '(', 0))
}

/// Device model types that browser libraries may declare.
pub open spec fn browser_model_type(t: Seq<char>) -> bool {
    t == "D"@ || t == "NPN"@ || t == "PNP"@ || t == "NMOS"@ || t == "PMOS"@ || t == "SW"@ || t == "CSW"@
}

/// Fewest fields of an element card, by its family letter; 0 for an
/// unsupported family.
pub open spec fn card_minimum(c: char) -> int {
    let u = ascii_upper_char(c);
    if u == 'R' || u == 'C' || u == 'L' || u == 'V' || u == 'I' || u == 'D' || u == 'B' || u == 'X' {
        4
    } else if u == 'E' || u == 'G' || u == 'F' || u == 'H' || u == 'Q' {
        5
    } else if u == 'M' || u == 'S' {
        6
    } else {
        0
    }
}

/// `s` with `x` placed before the first larger name.
pub open spec fn insert_sorted(s: Seq<Seq<char>>, x: Seq<char>) -> Seq<Seq<char>>
    decreases s.len(),
{
    if s.len() == 0 {
        seq![x]
    } else if text_lt(x, s[0]) {
        seq![x] + s
    } else {
        seq![s[0]] + insert_sorted(s.drop_first(), x)
    }
}

/// What reading a library has gathered: the open subcircuits, innermost
/// last; the defined subcircuit names, lower-cased, in ascending order; and
/// each `X` instance as (enclosing subcircuit, instantiated entry).
pub type LibraryScan = (Seq<Seq<char>>, Seq<Seq<char>>, Seq<(Seq<char>, Seq<char>)>);

pub open spec fn scan_directive(st: LibraryScan, f: Seq<Seq<char>>, head: Seq<char>) -> Result<LibraryScan, Seq<char>> {
    if head == ".subckt"@ && f.len() >= 4 && st.0.len() < 64 {
        let name = lower(f[1]);
        if st.1.contains(name) {
            Err("Duplicate subcircuit entry in browser library"@)
        } else {
            Ok((st.0.push(name), insert_sorted(st.1, name), st.2))
        }
    } else if head == ".ends"@ && f.len() <= 2 {
        if st.0.len() == 0 {
            Err("Unmatched .ENDS in browser library"@)
        } else if f.len() == 2 && !eq_ignore_case(f[1], st.0.last()) {
            Err("Mismatched .ENDS in browser library"@)
        } else {
            Ok((st.0.drop_last(), st.1, st.2))
        }
    } else if head == ".model"@ && f.len() >= 3 && st.0.len() > 0 {
        if browser_model_type(upper(before_paren(f[2]))) {
            Ok(st)
        } else {
            Err("Browser model type is not supported"@)
        }
    } else if (head == ".param"@ || head == ".func"@) && f.len() >= 2 && st.0.len() > 0 {
        Ok(st)
    } else {
        Err("Browser model directive is not supported; use the native CLI"@)
    }
}

pub open spec fn scan_card(st: LibraryScan, f: Seq<Seq<char>>, head: Seq<char>) -> Result<LibraryScan, Seq<char>> {
    if st.0.len() == 0 {
        Err("Browser model devices must be inside a subcircuit"@)
    } else if card_minimum(head[0]) == 0 {
        Err("Browser model element family is unsupported"@)
    } else if f.len() < card_minimum(head[0]) {
        Err("Malformed browser model card"@)
    } else if head[0] == 'x' {
        Ok((st.0, st.1, st.2.push((st.0.last(), lower(f.last())))))
    } else {
        Ok(st)
    }
}

/// One logical statement of a browser library.
pub open spec fn scan_statement(st: LibraryScan, line: Seq<char>) -> Result<LibraryScan, Seq<char>> {
    let f = words(line);
    if forbidden_text(lower(line)) {
        Err("Browser models cannot load files, libraries, controls or compiled plug-ins"@)
    } else if f.len() == 0 {
        // Never taken: a statement holds a non-space character.
        Ok(st)
    } else if lower(f[0])[0] == '.' {
        scan_directive(st, f, lower(f[0]))
    } else {
        scan_card(st, f, lower(f[0]))
    }
}

/// The statements read in order, stopping at the first refusal.
pub open spec fn scan_library(lines: Seq<Seq<char>>) -> Result<LibraryScan, Seq<char>>
    decreases lines.len(),
{
    if lines.len() == 0 {
        Ok((seq![], seq![], seq![]))
    } else {
        match scan_library(lines.drop_last()) {
            Err(e) => Err(e),
            Ok(st) => scan_statement(st, lines.last()),
        }
    }
}

/// The open subcircuits and instance parents are defined names, and no name
/// is defined twice.
pub open spec fn scan_ok(st: LibraryScan) -> bool {
    &&& forall|i: int| 0 <= i < st.0.len() ==> st.1.contains(#[trigger] st.0[i])
    &&& forall|i: int| 0 <= i < st.2.len() ==> st.1.contains((#[trigger] st.2[i]).0)
    &&& forall|a: int, b: int| 0 <= a < b < st.1.len() ==> (#[trigger] st.1[a]) != (#[trigger] st.1[b])
}


proof fn lemma_insert_split(s: Seq<Seq<char>>, x: Seq<char>, p: int)
    requires
        0 <= p <= s.len(),
        forall|j: int| 0 <= j < p ==> !text_lt(x, #[trigger] s[j]),
        p < s.len() ==> text_lt(x, s[p]),
    ensures
        insert_sorted(s, x) == s.take(p).push(x) + s.skip(p),
    decreases p,
{
    if p == 0 {
        if s.len() == 0 {
            assert(s.take(0).push(x) + s.skip(0) =~= seq![x]);
        } else {
            assert(s.take(0).push(x) + s.skip(0) =~= seq![x] + s);
        }
    } else {
        let rest = s.drop_first();
        assert(!text_lt(x, s[0]));
        assert forall|j: int| 0 <= j < p - 1 implies !text_lt(x, #[trigger] rest[j]) by {
            assert(rest[j] == s[j + 1]);
        }
        if p < s.len() {
            assert(rest[p - 1] == s[p]);
        }
        lemma_insert_split(rest, x, p - 1);
        assert(seq![s[0]] + (rest.take(p - 1).push(x) + rest.skip(p - 1)) =~= s.take(p).push(x) + s.skip(p));
    }
}

fn copy_text(s: &String) -> (r: String)
    ensures
        r@ == s@,
{
    owned(s.as_str())
}

/// Whether `name` is among `v`.
pub(crate) fn has_name(v: &Vec<String>, name: &String) -> (r: bool)
    ensures
        r == views(v@).contains(name@),
{
    let mut i: usize = 0;
    while i < v.len()
        invariant
            i <= v.len(),
            forall|j: int| 0 <= j < i ==> views(v@)[j] != name@,
        decreases v.len() - i,
    {
        if crate::text::text_is(v[i].as_str(), name.as_str()) {
            assert(views(v@)[i as int] == name@);
            return true;
        }
        i = i + 1;
    }
    false
}

pub(crate) fn insert_name_sorted(defs: &mut Vec<String>, name: String) -> (p: usize)
    ensures
        views(final(defs)@) == insert_sorted(views(old(defs)@), name@),
        p <= old(defs)@.len(),
        views(final(defs)@) == views(old(defs)@).take(p as int).push(name@) + views(old(defs)@).skip(p as int),
{
    let ghost s = views(defs@);
    let mut p: usize = 0;
    while p < defs.len() && !crate::text::text_less(name.as_str(), defs[p].as_str())
        invariant
            p <= defs.len(),
            s == views(defs@),
            forall|j: int| 0 <= j < p ==> !text_lt(name@, #[trigger] s[j]),
        decreases defs.len() - p,
    {
        p = p + 1;
    }
    proof {
        lemma_insert_split(s, name@, p as int);
    }
    defs.insert(p, name);
    assert(views(defs@) =~= s.take(p as int).push(name@) + s.skip(p as int));
    p
}

fn directive_step(
    scope: &mut Vec<String>,
    defs: &mut Vec<String>,
    refs: &Vec<(String, String)>,
    f: &Vec<String>,
    head: &String,
) -> (r: Result<(), String>)
    requires
        scan_ok((views(old(scope)@), views(old(defs)@), pair_views(refs@))),
    ensures
        match scan_directive((views(old(scope)@), views(old(defs)@), pair_views(refs@)), views(f@), head@) {
            Ok(v) => r is Ok && (views(final(scope)@), views(final(defs)@), pair_views(refs@)) == v && scan_ok(v),
            Err(e) => r matches Err(m) && m@ == e,
        },
{
    let ghost st = (views(scope@), views(defs@), pair_views(refs@));
    if crate::text::text_is(head.as_str(), ".subckt") && f.len() >= 4 && scope.len() < 64 {
        let name = crate::text::to_lower(f[1].as_str());
        if has_name(defs, &name) {
            return Err(owned("Duplicate subcircuit entry in browser library"));
        }
        let ghost d0 = views(defs@);
        scope.push(copy_text(&name));
        let pos = insert_name_sorted(defs, name);
        proof {
            let d1 = views(defs@);
            let x = lower(f@[1]@);
            let p = pos as int;
            assert(views(scope@) =~= st.0.push(x));
            assert forall|y: Seq<char>| d0.contains(y) implies d1.contains(y) by {
                let j = choose|j: int| 0 <= j < d0.len() && d0[j] == y;
                if j < p {
                    assert(d1[j] == y);
                } else {
                    assert(d1[j + 1] == y);
                }
            }
            assert(d1[p] == x);
            assert forall|a: int, b: int| 0 <= a < b < d1.len() implies (#[trigger] d1[a]) != (#[trigger] d1[b]) by {
                if a < p && b < p {
                } else if a < p && b == p {
                    assert(d0.contains(d1[a]));
                } else if a < p {
                    assert(d1[b] == d0[b - 1]);
                } else if a == p {
                    assert(d1[b] == d0[b - 1]);
                    assert(d0.contains(d1[b]));
                } else {
                    assert(d1[a] == d0[a - 1] && d1[b] == d0[b - 1]);
                }
            }
            assert forall|i: int| 0 <= i < views(scope@).len() implies d1.contains(#[trigger] views(scope@)[i]) by {
                if i < st.0.len() {
                    assert(views(scope@)[i] == st.0[i]);
                    assert(d0.contains(st.0[i]));
                }
            }
            assert forall|i: int| 0 <= i < st.2.len() implies d1.contains((#[trigger] st.2[i]).0) by {
                assert(d0.contains(st.2[i].0));
            }
        }
        return Ok(());
    }
    if crate::text::text_is(head.as_str(), ".ends") && f.len() <= 2 {
        if scope.len() == 0 {
            return Err(owned("Unmatched .ENDS in browser library"));
        }
        let last = scope.len() - 1;
        if f.len() == 2 && !crate::text::eq_ignore_case_exec(f[1].as_str(), scope[last].as_str()) {
            return Err(owned("Mismatched .ENDS in browser library"));
        }
        scope.pop();
        assert(views(scope@) =~= st.0.drop_last());
        assert forall|i: int| 0 <= i < views(scope@).len() implies views(defs@).contains(#[trigger] views(scope@)[i]) by {
            assert(views(scope@)[i] == st.0[i]);
        }
        return Ok(());
    }
    if crate::text::text_is(head.as_str(), ".model") && f.len() >= 3 && scope.len() > 0 {
        let wc = chars_of(f[2].as_str());
        let k = find_next(&wc, '(', 0);
        proof {
            lemma_next_char(wc@, '(', 0);
        }
        let t = crate::text::to_upper(string_of(&wc, 0, k).as_str());
        assert(wc@.subrange(0, k as int) =~= before_paren(f@[2]@));
        let ts = t.as_str();
        if crate::text::text_is(ts, "D") || crate::text::text_is(ts, "NPN") || crate::text::text_is(ts, "PNP")
            || crate::text::text_is(ts, "NMOS") || crate::text::text_is(ts, "PMOS") || crate::text::text_is(ts, "SW")
            || crate::text::text_is(ts, "CSW") {
            return Ok(());
        }
        return Err(owned("Browser model type is not supported"));
    }
    if (crate::text::text_is(head.as_str(), ".param") || crate::text::text_is(head.as_str(), ".func")) && f.len()
        >= 2 && scope.len() > 0 {
        return Ok(());
    }
    Err(owned("Browser model directive is not supported; use the native CLI"))
}


fn card_minimum_exec(c: char) -> (m: usize)
    ensures
        m == card_minimum(c),
{
    let u = crate::text::upper_char_exec(c);
    if u == 'R' || u == 'C' || u == 'L' || u == 'V' || u == 'I' || u == 'D' || u == 'B' || u == 'X' {
        4
    } else if u == 'E' || u == 'G' || u == 'F' || u == 'H' || u == 'Q' {
        5
    } else if u == 'M' || u == 'S' {
        6
    } else {
        0
    }
}

fn card_step(
    scope: &Vec<String>,
    defs: &Vec<String>,
    refs: &mut Vec<(String, String)>,
    f: &Vec<String>,
    head: &Vec<char>,
) -> (r: Result<(), String>)
    requires
        head.len() > 0,
        f.len() > 0,
        scan_ok((views(scope@), views(defs@), pair_views(old(refs)@))),
    ensures
        match scan_card((views(scope@), views(defs@), pair_views(old(refs)@)), views(f@), head@) {
            Ok(v) => r is Ok && (views(scope@), views(defs@), pair_views(final(refs)@)) == v && scan_ok(v),
            Err(e) => r matches Err(m) && m@ == e,
        },
{
    let ghost st = (views(scope@), views(defs@), pair_views(refs@));
    if scope.len() == 0 {
        return Err(owned("Browser model devices must be inside a subcircuit"));
    }
    let m = card_minimum_exec(head[0]);
    if m == 0 {
        return Err(owned("Browser model element family is unsupported"));
    }
    if f.len() < m {
        return Err(owned("Malformed browser model card"));
    }
    if head[0] == 'x' {
        let parent = copy_text(&scope[scope.len() - 1]);
        let child = crate::text::to_lower(f[f.len() - 1].as_str());
        refs.push((parent, child));
        proof {
            assert(pair_views(refs@) =~= st.2.push((st.0.last(), lower(views(f@).last()))));
            assert(st.1.contains(st.0[st.0.len() - 1]));
            assert forall|i: int| 0 <= i < pair_views(refs@).len() implies st.1.contains(
                (#[trigger] pair_views(refs@)[i]).0,
            ) by {
                if i < st.2.len() {
                    assert(pair_views(refs@)[i] == st.2[i]);
                }
            }
        }
    }
    Ok(())
}

fn statement_step(
    scope: &mut Vec<String>,
    defs: &mut Vec<String>,
    refs: &mut Vec<(String, String)>,
    line: &String,
) -> (r: Result<(), String>)
    requires
        scan_ok((views(old(scope)@), views(old(defs)@), pair_views(old(refs)@))),
    ensures
        match scan_statement((views(old(scope)@), views(old(defs)@), pair_views(old(refs)@)), line@) {
            Ok(v) => r is Ok && (views(final(scope)@), views(final(defs)@), pair_views(final(refs)@)) == v
                && scan_ok(v),
            Err(e) => r matches Err(m) && m@ == e,
        },
{
    let low = crate::text::to_lower(line.as_str());
    let lc = chars_of(low.as_str());
    if has_text(&lc, "file") || has_text(&lc, "pwl_file") || has_text(&lc, "shell") || has_text(&lc, ".control")
        || has_text(&lc, ".include") || has_text(&lc, ".lib") || has_text(&lc, "osdi") || has_text(&lc, "pre_osdi") {
        return Err(owned("Browser models cannot load files, libraries, controls or compiled plug-ins"));
    }
    let f = crate::text::words_of(line.as_str());
    if f.len() == 0 {
        return Ok(());
    }
    let head = crate::text::to_lower(f[0].as_str());
    let hc = chars_of(head.as_str());
    proof {
        crate::text::lemma_words_nonempty(line@, 0);
        assert(views(f@)[0] == f@[0]@);
        assert(words(line@)[0].len() > 0);
    }
    if hc[0] == '.' {
        directive_step(scope, defs, refs, &f, &head)
    } else {
        card_step(scope, defs, refs, &f, &hc)
    }
}

/// Reads the statements of a library in order.
fn scan_statements(lines: &Vec<String>) -> (r: Result<(Vec<String>, Vec<String>, Vec<(String, String)>), String>)
    ensures
        match scan_library(views(lines@)) {
            Ok(v) => r matches Ok(x) && (views(x.0@), views(x.1@), pair_views(x.2@)) == v && scan_ok(v),
            Err(e) => r matches Err(m) && m@ == e,
        },
{
    let mut scope: Vec<String> = Vec::new();
    let mut defs: Vec<String> = Vec::new();
    let mut refs: Vec<(String, String)> = Vec::new();
    let mut k: usize = 0;
    assert(views(scope@) =~= Seq::<Seq<char>>::empty());
    assert(views(defs@) =~= Seq::<Seq<char>>::empty());
    assert(pair_views(refs@) =~= Seq::<(Seq<char>, Seq<char>)>::empty());
    assert(views(lines@).take(0) =~= Seq::<Seq<char>>::empty());
    while k < lines.len()
        invariant
            k <= lines.len(),
            scan_library(views(lines@).take(k as int)) == Ok::<LibraryScan, Seq<char>>(
                (views(scope@), views(defs@), pair_views(refs@)),
            ),
            scan_ok((views(scope@), views(defs@), pair_views(refs@))),
        decreases lines.len() - k,
    {
        assert(views(lines@).take(k + 1).drop_last() =~= views(lines@).take(k as int));
        assert(views(lines@).take(k + 1).last() == lines@[k as int]@);
        match statement_step(&mut scope, &mut defs, &mut refs, &lines[k]) {
            Err(m) => {
                proof {
                    lemma_scan_stops(views(lines@), k as int);
                }
                return Err(m);
            },
            Ok(()) => {},
        }
        k = k + 1;
    }
    assert(views(lines@).take(k as int) =~= views(lines@));
    Ok((scope, defs, refs))
}

/// Once a statement is refused, the whole library is refused with its message.
proof fn lemma_scan_stops(lines: Seq<Seq<char>>, k: int)
    requires
        0 <= k < lines.len(),
        scan_library(lines.take(k + 1)) is Err,
    ensures
        scan_library(lines) == scan_library(lines.take(k + 1)),
    decreases lines.len() - k,
{
    if k + 1 < lines.len() {
        assert(lines.drop_last().take(k + 1) =~= lines.take(k + 1));
        lemma_scan_stops(lines.drop_last(), k);
    } else {
        assert(lines.take(k + 1) =~= lines);
    }
}


// ---------------------------------------------------------------------------
// Subcircuit dependencies.

/// The entries that subcircuit `n` instantiates, in order.
pub open spec fn children(refs: Seq<(Seq<char>, Seq<char>)>, n: Seq<char>) -> Seq<Seq<char>>
    decreases refs.len(),
{
    if refs.len() == 0 {
        seq![]
    } else if refs.last().0 == n {
        children(refs.drop_last(), n).push(refs.last().1)
    } else {
        children(refs.drop_last(), n)
    }
}

/// The position of a defined name.
pub open spec fn index_in(order: Seq<Seq<char>>, x: Seq<char>) -> int {
    choose|i: int| 0 <= i < order.len() && order[i] == x
}

/// For each defined subcircuit, by position, the positions of the entries it
/// instantiates.
pub open spec fn dependency_graph(order: Seq<Seq<char>>, refs: Seq<(Seq<char>, Seq<char>)>) -> Seq<Seq<int>> {
    Seq::new(order.len(), |i: int| children(refs, order[i]).map_values(|c: Seq<char>| index_in(order, c)))
}

/// An instance of an entry that is not defined.
pub open spec fn unresolved(st: LibraryScan) -> bool {
    exists|i: int| 0 <= i < st.2.len() && !st.1.contains((#[trigger] st.2[i]).1)
}

pub open spec fn depth_exceeded() -> Seq<char> {
    "Browser subcircuit dependency depth exceeds 64"@
}

/// Depth-first walk from `n`, `d` steps below its root, with the subcircuits
/// on the current path marked in `active` and the heights found so far in
/// `h`: the height of `n` (its longest chain of instances) and the updated
/// heights, or the first refusal.
pub open spec fn visit_spec(g: Seq<Seq<int>>, n: int, d: int, active: Seq<bool>, h: Seq<Option<int>>) -> Result<
    (int, Seq<Option<int>>),
    Seq<char>,
>
    decreases 65 - d, 1int, 0int,
{
    if d > 64 {
        Err(depth_exceeded())
    } else if h[n] is Some {
        if h[n]->0 + d > 64 {
            Err(depth_exceeded())
        } else {
            Ok((h[n]->0, h))
        }
    } else if active[n] {
        Err("Recursive browser subcircuit dependency"@)
    } else {
        match kids_spec(g, n, 0, d, active.update(n, true), h, 0) {
            Err(e) => Err(e),
            Ok((m, h2)) => Ok((m, h2.update(n, Some(m)))),
        }
    }
}

/// The children of `n` from the `i`-th on, with the greatest height `best`
/// seen so far plus one.
pub open spec fn kids_spec(
    g: Seq<Seq<int>>,
    n: int,
    i: int,
    d: int,
    active: Seq<bool>,
    h: Seq<Option<int>>,
    best: int,
) -> Result<(int, Seq<Option<int>>), Seq<char>>
    decreases 65 - d, 0int, g[n].len() - i,
{
    if d > 64 || i < 0 || i >= g[n].len() {
        Ok((best, h))
    } else {
        match visit_spec(g, g[n][i], d + 1, active, h) {
            Err(e) => Err(e),
            Ok((c, h2)) => kids_spec(g, n, i + 1, d, active, h2, if best >= c + 1 { best } else { c + 1 }),
        }
    }
}

/// Walks from every subcircuit in ascending name order, sharing heights.
pub open spec fn visit_all(g: Seq<Seq<int>>, k: int, h: Seq<Option<int>>) -> Result<(), Seq<char>>
    decreases g.len() - k,
{
    if k < 0 || k >= g.len() {
        Ok(())
    } else {
        match visit_spec(g, k, 0, Seq::new(g.len(), |i: int| false), h) {
            Err(e) => Err(e),
            Ok((_, h2)) => visit_all(g, k + 1, h2),
        }
    }
}

proof fn lemma_scan_prefixes(lines: Seq<Seq<char>>)
    requires
        scan_library(lines) is Ok,
    ensures
        forall|i: int|
            0 <= i < lines.len() ==> scan_library(#[trigger] lines.take(i)) is Ok && scan_statement(
                scan_library(lines.take(i))->Ok_0,
                lines[i],
            ) is Ok,
    decreases lines.len(),
{
    if lines.len() > 0 {
        let front = lines.drop_last();
        lemma_scan_prefixes(front);
        assert forall|i: int| 0 <= i < lines.len() implies scan_library(#[trigger] lines.take(i)) is Ok && scan_statement(
            scan_library(lines.take(i))->Ok_0,
            lines[i],
        ) is Ok by {
            if i < front.len() {
                assert(front.take(i) =~= lines.take(i));
                assert(front[i] == lines[i]);
            } else {
                assert(lines.take(i) =~= front);
            }
        }
    }
}

/// A device card: a statement whose first word does not begin with `.`.
pub open spec fn is_card(line: Seq<char>) -> bool {
    words(line).len() > 0 && lower(words(line)[0]).len() > 0 && lower(words(line)[0])[0] != '.'
}

/// An accepted browser library is at most 16 MiB; none of its statements
/// loads files or libraries, runs controls or names compiled plug-ins; each
/// device card stands inside an open subcircuit; at the end every
/// subcircuit is closed, at least one is defined, and every instance names
/// a defined subcircuit.
pub proof fn lemma_browser_library_accepted(text: Seq<char>)
    requires
        browser_library_spec(text) is Ok,
    ensures
        utf8_len(text) <= MAX_EXTERNAL_MODEL_BYTES,
        library_statements_spec(text) is Ok,
        ({
            let lines = library_statements_spec(text)->Ok_0;
            &&& forall|i: int| 0 <= i < lines.len() ==> !forbidden_text(lower(#[trigger] lines[i]))
            &&& forall|i: int|
                0 <= i < lines.len() && is_card(#[trigger] lines[i]) ==> scan_library(lines.take(i))->Ok_0.0.len() > 0
            &&& scan_library(lines) is Ok
            &&& scan_library(lines)->Ok_0.0.len() == 0
            &&& scan_library(lines)->Ok_0.1.len() > 0
            &&& !unresolved(scan_library(lines)->Ok_0)
        }),
{
    let lines = library_statements_spec(text)->Ok_0;
    lemma_scan_prefixes(lines);
    assert forall|i: int| 0 <= i < lines.len() implies !forbidden_text(lower(#[trigger] lines[i])) && (is_card(lines[i])
        ==> scan_library(lines.take(i))->Ok_0.0.len() > 0) by {
        assert(scan_library(lines.take(i)) is Ok);
    }
}

// ---------------------------------------------------------------------------
// What the dependency walk establishes.

/// A path through the graph: nodes in range, each a child of the one before.
pub open spec fn is_chain(g: Seq<Seq<int>>, p: Seq<int>) -> bool {
    &&& p.len() >= 1
    &&& forall|k: int| 0 <= k < p.len() ==> 0 <= #[trigger] p[k] < g.len()
    &&& forall|k: int| 0 <= k < p.len() - 1 ==> g[p[k]].contains(#[trigger] p[k + 1])
}

/// Every path from `x` takes at most `b` steps.
pub open spec fn chains_bounded(g: Seq<Seq<int>>, x: int, b: int) -> bool {
    forall|p: Seq<int>| #[trigger] is_chain(g, p) && p[0] == x ==> p.len() <= b + 1
}

pub open spec fn graph_in_range(g: Seq<Seq<int>>) -> bool {
    forall|i: int, j: int| 0 <= i < g.len() && 0 <= j < g[i].len() ==> 0 <= #[trigger] g[i][j] < g.len()
}

/// Each known height bounds the paths from its node.
pub open spec fn heights_sound(g: Seq<Seq<int>>, h: Seq<Option<int>>) -> bool {
    &&& h.len() == g.len()
    &&& forall|n: int| 0 <= n < g.len() && (#[trigger] h[n]) is Some ==> h[n]->0 >= 0 && chains_bounded(g, n, h[n]->0)
}

proof fn lemma_chain_tail(g: Seq<Seq<int>>, p: Seq<int>)
    requires
        is_chain(g, p),
        p.len() >= 2,
    ensures
        is_chain(g, p.drop_first()),
        g[p[0]].contains(p[1]),
{
    let q = p.drop_first();
    assert forall|k: int| 0 <= k < q.len() implies 0 <= #[trigger] q[k] < g.len() by {
        assert(q[k] == p[k + 1]);
    }
    assert forall|k: int| 0 <= k < q.len() - 1 implies g[q[k]].contains(#[trigger] q[k + 1]) by {
        assert(q[k] == p[k + 1] && q[k + 1] == p[k + 2]);
    }
    assert(g[p[0int]].contains(p[0int + 1]));
}

proof fn lemma_visit_bounds(g: Seq<Seq<int>>, n: int, d: int, active: Seq<bool>, h: Seq<Option<int>>)
    requires
        graph_in_range(g),
        0 <= n < g.len(),
        0 <= d,
        heights_sound(g, h),
        visit_spec(g, n, d, active, h) is Ok,
    ensures
        ({
            let (m, h2) = visit_spec(g, n, d, active, h)->Ok_0;
            &&& heights_sound(g, h2)
            &&& 0 <= m
            &&& m + d <= 64
            &&& chains_bounded(g, n, m)
        }),
    decreases 65 - d, 1int, 0int,
{
    if h[n] is Some {
    } else {
        let act = active.update(n, true);
        lemma_kids_bounds(g, n, 0, d, act, h, 0);
        let (m, h1) = kids_spec(g, n, 0, d, act, h, 0)->Ok_0;
        let h2 = h1.update(n, Some(m));
        assert forall|p: Seq<int>| #[trigger] is_chain(g, p) && p[0] == n implies p.len() <= m + 1 by {
            if p.len() >= 2 {
                lemma_chain_tail(g, p);
                let i = choose|i: int| 0 <= i < g[n].len() && g[n][i] == p[1];
                assert(chains_bounded(g, g[n][i], m - 1));
                assert(is_chain(g, p.drop_first()) && p.drop_first()[0] == g[n][i]);
            }
        }
        assert forall|x: int| 0 <= x < g.len() && (#[trigger] h2[x]) is Some implies h2[x]->0 >= 0 && chains_bounded(
            g,
            x,
            h2[x]->0,
        ) by {
            if x != n {
                assert(h2[x] == h1[x]);
            }
        }
    }
}

proof fn lemma_kids_bounds(
    g: Seq<Seq<int>>,
    n: int,
    i: int,
    d: int,
    active: Seq<bool>,
    h: Seq<Option<int>>,
    best: int,
)
    requires
        graph_in_range(g),
        0 <= n < g.len(),
        0 <= d <= 64,
        0 <= i,
        0 <= best,
        best + d <= 64,
        heights_sound(g, h),
        forall|j: int| 0 <= j < i && j < g[n].len() ==> chains_bounded(g, #[trigger] g[n][j], best - 1),
        kids_spec(g, n, i, d, active, h, best) is Ok,
    ensures
        ({
            let (m, h2) = kids_spec(g, n, i, d, active, h, best)->Ok_0;
            &&& heights_sound(g, h2)
            &&& best <= m
            &&& m + d <= 64
            &&& forall|j: int| 0 <= j < g[n].len() ==> chains_bounded(g, #[trigger] g[n][j], m - 1)
        }),
    decreases 65 - d, 0int, g[n].len() - i,
{
    if i >= g[n].len() {
    } else {
        let c = g[n][i];
        lemma_visit_bounds(g, c, d + 1, active, h);
        let (cm, h2) = visit_spec(g, c, d + 1, active, h)->Ok_0;
        let nb = if best >= cm + 1 {
            best
        } else {
            cm + 1
        };
        assert forall|j: int| 0 <= j < i + 1 && j < g[n].len() implies chains_bounded(g, #[trigger] g[n][j], nb - 1) by {
            let b0 = if j < i {
                best - 1
            } else {
                cm
            };
            assert(chains_bounded(g, g[n][j], b0));
            assert forall|p: Seq<int>| #[trigger] is_chain(g, p) && p[0] == g[n][j] implies p.len() <= nb - 1 + 1 by {
                assert(p.len() <= b0 + 1);
            }
        }
        lemma_kids_bounds(g, n, i + 1, d, active, h2, nb);
        let (m, h3) = kids_spec(g, n, i + 1, d, active, h2, nb)->Ok_0;
        assert forall|j: int| 0 <= j < g[n].len() implies chains_bounded(g, #[trigger] g[n][j], m - 1) by {}
    }
}

proof fn lemma_visit_all_bounds(g: Seq<Seq<int>>, k: int, h: Seq<Option<int>>)
    requires
        graph_in_range(g),
        0 <= k,
        heights_sound(g, h),
        visit_all(g, k, h) is Ok,
    ensures
        forall|x: int| k <= x < g.len() ==> #[trigger] chains_bounded(g, x, 64),
    decreases g.len() - k,
{
    if k < g.len() {
        let act = Seq::new(g.len(), |i: int| false);
        lemma_visit_bounds(g, k, 0, act, h);
        let (m, h2) = visit_spec(g, k, 0, act, h)->Ok_0;
        lemma_visit_all_bounds(g, k + 1, h2);
        assert forall|p: Seq<int>| #[trigger] is_chain(g, p) && p[0] == k implies p.len() <= 64 + 1 by {
            assert(chains_bounded(g, k, m));
        }
    }
}

/// A path that comes back to its start could be walked round again: no
/// graph whose paths are bounded has one.
proof fn lemma_bounded_acyclic(g: Seq<Seq<int>>, p: Seq<int>)
    requires
        is_chain(g, p),
        p.len() >= 2,
        forall|x: int| 0 <= x < g.len() ==> #[trigger] chains_bounded(g, x, 64),
    ensures
        p[0] != p[p.len() - 1],
{
    if p[0] == p[p.len() - 1] {
        let q = lemma_pump(g, p, 65);
        assert(chains_bounded(g, q[0], 64));
    }
}

/// The cycle `p` walked round `r` times more.
proof fn lemma_pump(g: Seq<Seq<int>>, p: Seq<int>, r: nat) -> (q: Seq<int>)
    requires
        is_chain(g, p),
        p.len() >= 2,
        p[0] == p[p.len() - 1],
    ensures
        is_chain(g, q),
        q[0] == p[0],
        q[q.len() - 1] == p[0],
        q.len() >= p.len() + r,
    decreases r,
{
    if r == 0 {
        p
    } else {
        let q0 = lemma_pump(g, p, (r - 1) as nat);
        let q = q0 + p.drop_first();
        assert forall|k: int| 0 <= k < q.len() implies 0 <= #[trigger] q[k] < g.len() by {
            if k >= q0.len() {
                assert(q[k] == p[k - q0.len() + 1]);
            }
        }
        assert forall|k: int| 0 <= k < q.len() - 1 implies g[q[k]].contains(#[trigger] q[k + 1]) by {
            if k < q0.len() - 1 {
                assert(q[k] == q0[k] && q[k + 1] == q0[k + 1]);
            } else if k == q0.len() - 1 {
                assert(q[k] == p[0] && q[k + 1] == p[1]);
                assert(g[p[0int]].contains(p[0int + 1]));
            } else {
                assert(q[k] == p[k - q0.len() + 1] && q[k + 1] == p[k - q0.len() + 2]);
            }
        }
        assert(q[q.len() - 1] == p[p.len() - 1]);
        q
    }
}

/// A chain of instances: defined subcircuits, each instantiated by the one
/// before.
pub open spec fn instance_chain(st: LibraryScan, p: Seq<Seq<char>>) -> bool {
    &&& p.len() >= 1
    &&& forall|k: int| 0 <= k < p.len() ==> st.1.contains(#[trigger] p[k])
    &&& forall|k: int| 0 <= k < p.len() - 1 ==> children(st.2, p[k]).contains(#[trigger] p[k + 1])
}

proof fn lemma_children_from(refs: Seq<(Seq<char>, Seq<char>)>, n: Seq<char>)
    ensures
        forall|j: int|
            #![trigger children(refs, n)[j]]
            0 <= j < children(refs, n).len() ==> exists|i: int|
                0 <= i < refs.len() && (#[trigger] refs[i]).1 == children(refs, n)[j],
    decreases refs.len(),
{
    if refs.len() > 0 {
        let front = refs.drop_last();
        lemma_children_from(front, n);
        assert forall|j: int| #![trigger children(refs, n)[j]] 0 <= j < children(refs, n).len() implies exists|i: int|
            0 <= i < refs.len() && (#[trigger] refs[i]).1 == children(refs, n)[j] by {
            if j < children(front, n).len() {
                let i = choose|i: int| 0 <= i < front.len() && (#[trigger] front[i]).1 == children(front, n)[j];
                assert(refs[i] == front[i]);
            } else {
                assert(refs[refs.len() - 1].1 == children(refs, n)[j]);
            }
        }
    }
}

proof fn lemma_index_in(order: Seq<Seq<char>>, x: Seq<char>)
    requires
        order.contains(x),
    ensures
        0 <= index_in(order, x) < order.len(),
        order[index_in(order, x)] == x,
{
}

proof fn lemma_graph_in_range(st: LibraryScan)
    requires
        !unresolved(st),
    ensures
        graph_in_range(dependency_graph(st.1, st.2)),
{
    let g = dependency_graph(st.1, st.2);
    assert forall|i: int, j: int| 0 <= i < g.len() && 0 <= j < g[i].len() implies 0 <= #[trigger] g[i][j] < g.len() by {
        let n = st.1[i];
        lemma_children_from(st.2, n);
        let c = children(st.2, n)[j];
        let r = choose|r: int| 0 <= r < st.2.len() && (#[trigger] st.2[r]).1 == c;
        assert(st.1.contains(st.2[r].1));
        lemma_index_in(st.1, c);
    }
}

/// In an accepted library no chain of instances is longer than 64 links,
/// and none comes back to the subcircuit it started from.
pub proof fn lemma_browser_chains(text: Seq<char>)
    requires
        browser_library_spec(text) is Ok,
    ensures
        ({
            let st = scan_library(library_statements_spec(text)->Ok_0)->Ok_0;
            forall|p: Seq<Seq<char>>|
                #[trigger] instance_chain(st, p) ==> p.len() <= 65 && (p.len() >= 2 ==> p[0] != p[p.len() - 1])
        }),
{
    let st = scan_library(library_statements_spec(text)->Ok_0)->Ok_0;
    let g = dependency_graph(st.1, st.2);
    lemma_graph_in_range(st);
    let h0 = Seq::new(st.1.len(), |i: int| None::<int>);
    lemma_visit_all_bounds(g, 0, h0);
    assert forall|p: Seq<Seq<char>>| #[trigger] instance_chain(st, p) implies p.len() <= 65 && (p.len() >= 2 ==> p[0]
        != p[p.len() - 1]) by {
        let q = p.map_values(|x: Seq<char>| index_in(st.1, x));
        assert forall|k: int| 0 <= k < q.len() implies 0 <= #[trigger] q[k] < g.len() by {
            assert(st.1.contains(p[k]));
            lemma_index_in(st.1, p[k]);
        }
        assert forall|k: int| 0 <= k < q.len() - 1 implies g[q[k]].contains(#[trigger] q[k + 1]) by {
            assert(st.1.contains(p[k]));
            lemma_index_in(st.1, p[k]);
            let cs = children(st.2, p[k]);
            assert(cs.contains(p[k + 1]));
            let j = choose|j: int| 0 <= j < cs.len() && cs[j] == p[k + 1];
            assert(g[q[k]] == cs.map_values(|c: Seq<char>| index_in(st.1, c)));
            assert(g[q[k]][j] == q[k + 1]);
        }
        assert(is_chain(g, q));
        assert(chains_bounded(g, q[0], 64));
        if p.len() >= 2 && p[0] == p[p.len() - 1] {
            lemma_bounded_acyclic(g, q);
        }
    }
}

/// Everything an accepted browser library satisfies: at most 16 MiB; no
/// statement loads files, libraries, shells, controls or plug-ins; every
/// device card inside an open subcircuit; subcircuits balanced, at least one
/// defined, their names unique ignoring ASCII case; every instance naming a
/// defined subcircuit; and no chain of instances longer than 64 links or
/// coming back to where it started.
pub open spec fn browser_accepted(text: Seq<char>) -> bool {
    &&& utf8_len(text) <= MAX_EXTERNAL_MODEL_BYTES
    &&& library_statements_spec(text) is Ok
    &&& {
        let lines = library_statements_spec(text)->Ok_0;
        let st = scan_library(lines)->Ok_0;
        &&& forall|i: int| 0 <= i < lines.len() ==> !forbidden_text(lower(#[trigger] lines[i]))
        &&& forall|i: int|
            0 <= i < lines.len() && is_card(#[trigger] lines[i]) ==> scan_library(lines.take(i))->Ok_0.0.len() > 0
        &&& scan_library(lines) is Ok
        &&& st.0.len() == 0
        &&& st.1.len() > 0
        &&& scan_ok(st)
        &&& !unresolved(st)
        &&& forall|p: Seq<Seq<char>>|
            #[trigger] instance_chain(st, p) ==> p.len() <= 65 && (p.len() >= 2 ==> p[0] != p[p.len() - 1])
    }
}

/// Each consequence of accepting a browser library, one by one: the text is at
/// most 16 MiB; no statement mentions, in any ASCII case, `file`, `pwl_file`,
/// `shell`, `.control`, `.include`, `.lib`, `osdi` or `pre_osdi`; every device
/// card follows an open `.subckt`; every `.subckt` is closed by the end and at
/// least one is defined; the defined names, lower-cased, are pairwise distinct;
/// every `X` instance stands in a defined subcircuit and names a defined one;
/// and every chain of instances has at most 64 links and never returns to the
/// subcircuit it started from.
pub proof fn lemma_browser_acceptance(text: Seq<char>)
    requires
        browser_accepted(text),
    ensures
        utf8_len(text) <= MAX_EXTERNAL_MODEL_BYTES,
        ({
            let lines = library_statements_spec(text)->Ok_0;
            let st = scan_library(lines)->Ok_0;
            &&& forall|i: int|
                #![trigger lines[i]]
                0 <= i < lines.len() ==> {
                    let low = lower(lines[i]);
                    &&& !contains_text(low, "file"@)
                    &&& !contains_text(low, "pwl_file"@)
                    &&& !contains_text(low, "shell"@)
                    &&& !contains_text(low, ".control"@)
                    &&& !contains_text(low, ".include"@)
                    &&& !contains_text(low, ".lib"@)
                    &&& !contains_text(low, "osdi"@)
                    &&& !contains_text(low, "pre_osdi"@)
                }
            &&& forall|i: int|
                0 <= i < lines.len() && is_card(#[trigger] lines[i]) ==> scan_library(lines.take(i))->Ok_0.0.len() > 0
            &&& st.0.len() == 0
            &&& st.1.len() >= 1
            &&& forall|a: int, b: int| 0 <= a < b < st.1.len() ==> (#[trigger] st.1[a]) != (#[trigger] st.1[b])
            &&& forall|i: int| 0 <= i < st.2.len() ==> st.1.contains((#[trigger] st.2[i]).0) && st.1.contains(st.2[i].1)
            &&& forall|p: Seq<Seq<char>>|
                #[trigger] instance_chain(st, p) ==> p.len() - 1 <= 64 && (p.len() >= 2 ==> p[0] != p[p.len() - 1])
        }),
{
    let lines = library_statements_spec(text)->Ok_0;
    let st = scan_library(lines)->Ok_0;
    assert forall|i: int| 0 <= i < st.2.len() implies st.1.contains((#[trigger] st.2[i]).0) && st.1.contains(st.2[i].1) by {
        if !st.1.contains(st.2[i].1) {
            assert(unresolved(st));
        }
    }
    assert forall|i: int| #![trigger lines[i]] 0 <= i < lines.len() implies !forbidden_text(lower(lines[i])) by {}
}

/// What `validate_browser_library` decides for a library text.
pub open spec fn browser_library_spec(text: Seq<char>) -> Result<(), Seq<char>> {
    if utf8_len(text) > MAX_EXTERNAL_MODEL_BYTES {
        Err("Model exceeds 16 MiB"@)
    } else {
        match library_statements_spec(text) {
            Err(e) => Err(e),
            Ok(lines) => match scan_library(lines) {
                Err(e) => Err(e),
                Ok(st) => if st.0.len() > 0 || st.1.len() == 0 {
                    Err("Browser library requires complete subcircuit definitions"@)
                } else if unresolved(st) {
                    Err("Browser subcircuit dependency is unresolved or uses unsupported instance parameters"@)
                } else {
                    visit_all(dependency_graph(st.1, st.2), 0, Seq::new(st.1.len(), |i: int| None::<int>))
                },
            },
        }
    }
}

pub open spec fn graph_view(g: Seq<Vec<usize>>) -> Seq<Seq<int>> {
    g.map_values(|v: Vec<usize>| v@.map_values(|x: usize| x as int))
}

pub open spec fn heights_view(h: Seq<Option<usize>>) -> Seq<Option<int>> {
    h.map_values(|o: Option<usize>| match o {
        Some(x) => Some(x as int),
        None => None,
    })
}

/// Every child position is a node of the graph.
pub open spec fn graph_ok(g: Seq<Vec<usize>>) -> bool {
    forall|i: int, j: int| 0 <= i < g.len() && 0 <= j < g[i]@.len() ==> (#[trigger] g[i]@[j]) < g.len()
}

pub open spec fn heights_ok(h: Seq<Option<usize>>) -> bool {
    forall|i: int| 0 <= i < h.len() && (#[trigger] h[i]) is Some ==> h[i]->0 <= 64
}

pub open spec fn distinct(s: Seq<Seq<char>>) -> bool {
    forall|a: int, b: int| 0 <= a < b < s.len() ==> (#[trigger] s[a]) != (#[trigger] s[b])
}

fn index_of(order: &Vec<String>, x: &String) -> (i: usize)
    requires
        views(order@).contains(x@),
        distinct(views(order@)),
    ensures
        i < order.len(),
        i == index_in(views(order@), x@),
        views(order@)[i as int] == x@,
{
    let ghost o = views(order@);
    let mut i: usize = 0;
    while i < order.len()
        invariant
            i <= order.len(),
            o == views(order@),
            o.contains(x@),
            distinct(o),
            forall|j: int| 0 <= j < i ==> o[j] != x@,
        decreases order.len() - i,
    {
        if crate::text::text_is(order[i].as_str(), x.as_str()) {
            proof {
                assert(o[i as int] == x@);
                assert(0 <= i < o.len() && o[i as int] == x@);
                let c = index_in(o, x@);
                assert(0 <= c < o.len() && o[c] == x@);
                if c != i {
                    if c < i {
                        assert(o[c] != x@);
                    } else {
                        assert(o[i as int] != o[c]);
                    }
                }
            }
            return i;
        }
        i = i + 1;
    }
    proof {
        let j = choose|j: int| 0 <= j < o.len() && o[j] == x@;
        assert(o[j] != x@);
    }
    0
}

fn copy_ids(v: &Vec<usize>) -> (r: Vec<usize>)
    ensures
        r@ == v@,
{
    let mut r: Vec<usize> = Vec::new();
    let mut i: usize = 0;
    while i < v.len()
        invariant
            i <= v.len(),
            r@ == v@.take(i as int),
        decreases v.len() - i,
    {
        r.push(v[i]);
        assert(v@.take(i + 1) =~= v@.take(i as int).push(v@[i as int]));
        i = i + 1;
    }
    assert(v@.take(i as int) =~= v@);
    r
}

/// The dependency graph of the defined subcircuits.
fn build_graph(order: &Vec<String>, refs: &Vec<(String, String)>) -> (g: Vec<Vec<usize>>)
    requires
        distinct(views(order@)),
        forall|i: int| 0 <= i < refs@.len() ==> views(order@).contains((#[trigger] pair_views(refs@)[i]).0),
        forall|i: int| 0 <= i < refs@.len() ==> views(order@).contains((#[trigger] pair_views(refs@)[i]).1),
    ensures
        g@.len() == order@.len(),
        graph_ok(g@),
        graph_view(g@) == dependency_graph(views(order@), pair_views(refs@)),
{
    let ghost o = views(order@);
    let ghost rs = pair_views(refs@);
    let mut g: Vec<Vec<usize>> = Vec::new();
    let mut i: usize = 0;
    while i < order.len()
        invariant
            i <= order.len(),
            g@.len() == i,
            forall|j: int| 0 <= j < i ==> (#[trigger] g@[j])@.len() == 0,
        decreases order.len() - i,
    {
        g.push(Vec::new());
        i = i + 1;
    }
    let mut r: usize = 0;
    while r < refs.len()
        invariant
            r <= refs.len(),
            o == views(order@),
            rs == pair_views(refs@),
            distinct(o),
            forall|i: int| 0 <= i < refs@.len() ==> o.contains((#[trigger] rs[i]).0),
            forall|i: int| 0 <= i < refs@.len() ==> o.contains((#[trigger] rs[i]).1),
            g@.len() == order@.len(),
            graph_ok(g@),
            forall|j: int| 0 <= j < g@.len() ==> (#[trigger] graph_view(g@)[j]) == children(rs.take(r as int), o[j]).map_values(
                |c: Seq<char>| index_in(o, c),
            ),
        decreases refs.len() - r,
    {
        assert(rs[r as int] == (refs@[r as int].0@, refs@[r as int].1@));
        let pi = index_of(order, &refs[r].0);
        let ci = index_of(order, &refs[r].1);
        let mut list = copy_ids(&g[pi]);
        list.push(ci);
        let ghost before = g@;
        g.set(pi, list);
        proof {
            assert(rs.take(r + 1).drop_last() =~= rs.take(r as int));
            assert(rs.take(r + 1).last() == rs[r as int]);
            assert forall|j: int| 0 <= j < g@.len() implies (#[trigger] graph_view(g@)[j]) == children(
                rs.take(r + 1),
                o[j],
            ).map_values(|c: Seq<char>| index_in(o, c)) by {
                if j == pi {
                    assert(graph_view(g@)[j] =~= graph_view(before)[j].push(ci as int));
                    assert(children(rs.take(r + 1), o[j]) == children(rs.take(r as int), o[j]).push(rs[r as int].1));
                    assert(children(rs.take(r + 1), o[j]).map_values(|c: Seq<char>| index_in(o, c)) =~= children(
                        rs.take(r as int),
                        o[j],
                    ).map_values(|c: Seq<char>| index_in(o, c)).push(index_in(o, rs[r as int].1)));
                } else {
                    assert(o[j] != o[pi as int]);
                    assert(rs[r as int].0 == o[pi as int]);
                    assert(children(rs.take(r + 1), o[j]) == children(rs.take(r as int), o[j]));
                    assert(g@[j] == before[j]);
                    assert(graph_view(g@)[j] == graph_view(before)[j]);
                }
            }
            assert forall|a: int, b: int| 0 <= a < g@.len() && 0 <= b < g@[a]@.len() implies (#[trigger] g@[a]@[b]) < g@.len() by {
                if a == pi && b == g@[a]@.len() - 1 {
                } else if a == pi {
                    assert(g@[a]@[b] == before[a]@[b]);
                } else {
                    assert(g@[a] == before[a]);
                }
            }
        }
        r = r + 1;
    }
    proof {
        assert(rs.take(r as int) =~= rs);
        assert(graph_view(g@) =~= dependency_graph(o, rs));
    }
    g
}


/// The walk of `visit_spec`, with the path marks and heights held in place.
fn visit(
    g: &Vec<Vec<usize>>,
    n: usize,
    d: usize,
    active: &mut Vec<bool>,
    h: &mut Vec<Option<usize>>,
) -> (r: Result<usize, String>)
    requires
        graph_ok(g@),
        n < g@.len(),
        d <= 65,
        old(active)@.len() == g@.len(),
        old(h)@.len() == g@.len(),
        heights_ok(old(h)@),
    ensures
        final(h)@.len() == g@.len(),
        final(active)@.len() == g@.len(),
        heights_ok(final(h)@),
        match visit_spec(graph_view(g@), n as int, d as int, old(active)@, heights_view(old(h)@)) {
            Ok((v, h2)) => r matches Ok(x) && x == v && v + d <= 64 && heights_view(final(h)@) == h2
                && final(active)@ == old(active)@,
            Err(e) => r matches Err(m) && m@ == e,
        },
    decreases 65 - d,
{
    let ghost gv = graph_view(g@);
    if d > 64 {
        return Err(owned("Browser subcircuit dependency depth exceeds 64"));
    }
    assert(heights_view(h@)[n as int] == match h@[n as int] {
        Some(x) => Some(x as int),
        None => None::<int>,
    });
    match h[n] {
        Some(x) => {
            if x + d > 64 {
                return Err(owned("Browser subcircuit dependency depth exceeds 64"));
            }
            return Ok(x);
        },
        None => {},
    }
    if active[n] {
        return Err(owned("Recursive browser subcircuit dependency"));
    }
    let ghost a0 = active@;
    let ghost h0 = heights_view(h@);
    active.set(n, true);
    let ghost a1 = active@;
    assert(a1 == a0.update(n as int, true));
    let mut best: usize = 0;
    let mut i: usize = 0;
    assert(gv[n as int] == g@[n as int]@.map_values(|x: usize| x as int));
    while i < g[n].len()
        invariant
            gv == graph_view(g@),
            graph_ok(g@),
            n < g@.len(),
            d <= 64,
            i <= g@[n as int]@.len(),
            gv[n as int].len() == g@[n as int]@.len(),
            active@ == a1,
            a1.len() == g@.len(),
            a1 == old(active)@.update(n as int, true),
            !old(active)@[n as int],
            h0 == heights_view(old(h)@),
            h0[n as int] is None,
            h@.len() == g@.len(),
            heights_ok(h@),
            best + d <= 64,
            kids_spec(gv, n as int, i as int, d as int, a1, heights_view(h@), best as int) == kids_spec(
                gv,
                n as int,
                0,
                d as int,
                a1,
                h0,
                0,
            ),
        decreases g@[n as int]@.len() - i,
    {
        let c = g[n][i];
        assert(gv[n as int][i as int] == c as int);
        match visit(g, c, d + 1, active, h) {
            Err(m) => {
                return Err(m);
            },
            Ok(v) => {
                if best < v + 1 {
                    best = v + 1;
                }
            },
        }
        i = i + 1;
    }
    active.set(n, false);
    assert(active@ =~= a0);
    let ghost h_end = heights_view(h@);
    h.set(n, Some(best));
    assert(heights_view(h@) =~= h_end.update(n as int, Some(best as int)));
    Ok(best)
}

/// Walks from every subcircuit in turn.
fn visit_every(g: &Vec<Vec<usize>>) -> (r: Result<(), String>)
    requires
        graph_ok(g@),
    ensures
        match visit_all(graph_view(g@), 0, Seq::new(g@.len(), |i: int| None::<int>)) {
            Ok(()) => r is Ok,
            Err(e) => r matches Err(m) && m@ == e,
        },
{
    let ghost gv = graph_view(g@);
    let mut h: Vec<Option<usize>> = Vec::new();
    let mut i: usize = 0;
    while i < g.len()
        invariant
            i <= g@.len(),
            h@.len() == i,
            forall|j: int| 0 <= j < i ==> (#[trigger] h@[j]) is None,
        decreases g@.len() - i,
    {
        h.push(None);
        i = i + 1;
    }
    assert(heights_view(h@) =~= Seq::new(g@.len(), |i: int| None::<int>));
    let mut k: usize = 0;
    while k < g.len()
        invariant
            gv == graph_view(g@),
            graph_ok(g@),
            k <= g@.len(),
            h@.len() == g@.len(),
            heights_ok(h@),
            visit_all(gv, k as int, heights_view(h@)) == visit_all(gv, 0, Seq::new(g@.len(), |i: int| None::<int>)),
        decreases g@.len() - k,
    {
        let mut active: Vec<bool> = Vec::new();
        let mut j: usize = 0;
        while j < g.len()
            invariant
                j <= g@.len(),
                active@.len() == j,
                forall|t: int| 0 <= t < j ==> !(#[trigger] active@[t]),
            decreases g@.len() - j,
        {
            active.push(false);
            j = j + 1;
        }
        assert(active@ =~= Seq::new(g@.len(), |i: int| false));
        assert(gv.len() == g@.len());
        match visit(g, k, 0, &mut active, &mut h) {
            Err(m) => {
                return Err(m);
            },
            Ok(_) => {},
        }
        k = k + 1;
    }
    Ok(())
}

/// Whether every instantiated entry is a defined subcircuit.
fn all_resolved(defs: &Vec<String>, refs: &Vec<(String, String)>) -> (r: bool)
    ensures
        r == !unresolved((Seq::<Seq<char>>::empty(), views(defs@), pair_views(refs@))),
{
    let ghost st = (Seq::<Seq<char>>::empty(), views(defs@), pair_views(refs@));
    let mut i: usize = 0;
    while i < refs.len()
        invariant
            i <= refs.len(),
            st == (Seq::<Seq<char>>::empty(), views(defs@), pair_views(refs@)),
            forall|j: int| 0 <= j < i ==> st.1.contains((#[trigger] st.2[j]).1),
        decreases refs.len() - i,
    {
        if !has_name(defs, &refs[i].1) {
            assert(!st.1.contains(st.2[i as int].1));
            return false;
        }
        i = i + 1;
    }
    true
}

/// Accepts only self-contained analog libraries: complete subcircuits of
/// supported element cards and device models, no file, shell, control or
/// plug-in directives, every instantiated entry defined, no recursion, and
/// no chain of instances deeper than 64.
pub fn validate_browser_library(text: &str) -> (r: Result<(), String>)
    ensures
        match browser_library_spec(text@) {
            Ok(()) => r is Ok,
            Err(e) => r matches Err(m) && m@ == e,
        },
        r is Ok ==> scan_ok(scan_library(library_statements_spec(text@)->Ok_0)->Ok_0),
        r is Ok ==> browser_accepted(text@),
{
    let cs = chars_of(text);
    if crate::text::byte_len_capped(&cs, MAX_EXTERNAL_MODEL_BYTES) > MAX_EXTERNAL_MODEL_BYTES {
        return Err(owned("Model exceeds 16 MiB"));
    }
    let lines = match library_statements(text) {
        Err(m) => {
            return Err(m);
        },
        Ok(v) => v,
    };
    let (scope, defs, refs) = match scan_statements(&lines) {
        Err(m) => {
            return Err(m);
        },
        Ok(x) => x,
    };
    if scope.len() > 0 || defs.len() == 0 {
        return Err(owned("Browser library requires complete subcircuit definitions"));
    }
    if !all_resolved(&defs, &refs) {
        return Err(
            owned("Browser subcircuit dependency is unresolved or uses unsupported instance parameters"),
        );
    }
    proof {
        let st = (Seq::<Seq<char>>::empty(), views(defs@), pair_views(refs@));
        assert forall|i: int| 0 <= i < refs@.len() implies views(defs@).contains(
            (#[trigger] pair_views(refs@)[i]).1,
        ) by {
            if !views(defs@).contains(pair_views(refs@)[i].1) {
                assert(st.2.len() == refs@.len());
                assert(st.2[i] == pair_views(refs@)[i]);
                assert(0 <= i < st.2.len() && !st.1.contains(st.2[i].1));
                assert(unresolved(st));
            }
        }
    }
    let g = build_graph(&defs, &refs);
    let r = visit_every(&g);
    proof {
        if r is Ok {
            lemma_browser_library_accepted(text@);
            lemma_browser_chains(text@);
        }
    }
    r
}


// ---------------------------------------------------------------------------
// Files that a program needs bound.

/// A local model file that an external subcircuit declaration asks for.
#[derive(Debug, Clone)]
pub struct ResourceRequirement {
    pub model: String,
    pub resource: String,
    pub sha256: String,
    pub simulator: String,
}

pub type RequirementView = (Seq<char>, Seq<char>, Seq<char>, Seq<char>);

pub open spec fn requirement_view(r: ResourceRequirement) -> RequirementView {
    (r.model@, r.resource@, r.sha256@, r.simulator@)
}

/// The value of the first field whose name matches, ignoring ASCII case.
pub open spec fn field_value(ps: Seq<(Seq<char>, Seq<char>)>, name: Seq<char>) -> Option<Seq<char>>
    decreases ps.len(),
{
    if ps.len() == 0 {
        None
    } else if eq_ignore_case(ps[0].0, name) {
        Some(ps[0].1)
    } else {
        field_value(ps.drop_first(), name)
    }
}

pub open spec fn missing_field(model: Seq<char>, name: Seq<char>) -> Seq<char> {
    model + " requires "@ + name
}

/// The requirement of one declaration: its `file`, `sha256` and `simulator`
/// fields, the file a plain relative reference.
pub open spec fn requirement_spec(model: Seq<char>, ps: Seq<(Seq<char>, Seq<char>)>) -> Result<
    RequirementView,
    Seq<char>,
> {
    match field_value(ps, "file"@) {
        None => Err(missing_field(model, "file"@)),
        Some(file) => if !valid_reference(file) {
            Err("file must be a source-relative forward-slash path without traversal or control characters"@)
        } else {
            match field_value(ps, "sha256"@) {
                None => Err(missing_field(model, "sha256"@)),
                Some(hash) => match field_value(ps, "simulator"@) {
                    None => Err(missing_field(model, "simulator"@)),
                    Some(sim) => Ok((model, file, hash, sim)),
                },
            }
        },
    }
}

/// The requirements of the declarations, in order, or the first failure.
pub open spec fn requirements_spec(
    ds: Seq<(Seq<char>, Seq<char>, Seq<Seq<char>>, Seq<(Seq<char>, Seq<char>)>)>,
) -> Result<Seq<RequirementView>, Seq<char>>
    decreases ds.len(),
{
    if ds.len() == 0 {
        Ok(seq![])
    } else {
        match requirements_spec(ds.drop_last()) {
            Err(e) => Err(e),
            Ok(v) => match requirement_spec(ds.last().1, ds.last().3) {
                Err(e) => Err(e),
                Ok(q) => Ok(v.push(q)),
            },
        }
    }
}

/// A declaration names a plain relative file, a digest and a simulator.
pub open spec fn declares_resource(d: (Seq<char>, Seq<char>, Seq<Seq<char>>, Seq<(Seq<char>, Seq<char>)>)) -> bool {
    &&& field_value(d.3, "file"@) matches Some(f) && valid_reference(f)
    &&& field_value(d.3, "sha256"@) is Some
    &&& field_value(d.3, "simulator"@) is Some
}

/// The requirement a declaration that names its resource stands for.
pub open spec fn stated_requirement(d: (Seq<char>, Seq<char>, Seq<Seq<char>>, Seq<(Seq<char>, Seq<char>)>)) -> RequirementView {
    (
        d.1,
        field_value(d.3, "file"@)->0,
        field_value(d.3, "sha256"@)->0,
        field_value(d.3, "simulator"@)->0,
    )
}

/// Requirements are found exactly when every external declaration names
/// its file, digest and simulator, and then there is one per declaration,
/// in order, carrying its name, file, digest and simulator.
pub proof fn lemma_requirements_one_per_declaration(
    ds: Seq<(Seq<char>, Seq<char>, Seq<Seq<char>>, Seq<(Seq<char>, Seq<char>)>)>,
)
    ensures
        requirements_spec(ds) is Ok <==> forall|i: int| 0 <= i < ds.len() ==> declares_resource(#[trigger] ds[i]),
        requirements_spec(ds) matches Ok(v) ==> v.len() == ds.len() && forall|i: int|
            0 <= i < ds.len() ==> #[trigger] v[i] == stated_requirement(ds[i]),
    decreases ds.len(),
{
    if ds.len() > 0 {
        let front = ds.drop_last();
        lemma_requirements_one_per_declaration(front);
        assert forall|i: int| 0 <= i < front.len() implies front[i] == ds[i] by {}
        if forall|i: int| 0 <= i < ds.len() ==> declares_resource(#[trigger] ds[i]) {
            assert(forall|i: int| 0 <= i < front.len() ==> declares_resource(#[trigger] front[i]));
            assert(declares_resource(ds[ds.len() - 1]));
        }
        if requirements_spec(ds) is Ok {
            let v = requirements_spec(ds)->Ok_0;
            let w = requirements_spec(front)->Ok_0;
            assert forall|i: int| 0 <= i < ds.len() implies declares_resource(#[trigger] ds[i]) && v[i] == stated_requirement(ds[i]) by {
                if i < front.len() {
                    assert(front[i] == ds[i]);
                    assert(v[i] == w[i]);
                }
            }
        }
    }
}

fn find_field(ps: &Vec<crate::ast::NamedValue>, name: &str) -> (r: Option<String>)
    ensures
        match field_value(crate::ast::named_views(ps@), name@) {
            Some(v) => r matches Some(x) && x@ == v,
            None => r is None,
        },
{
    let ghost pv = crate::ast::named_views(ps@);
    let mut i: usize = 0;
    assert(pv.skip(0) =~= pv);
    while i < ps.len()
        invariant
            i <= ps.len(),
            pv == crate::ast::named_views(ps@),
            field_value(pv, name@) == field_value(pv.skip(i as int), name@),
        decreases ps.len() - i,
    {
        assert(pv.skip(i as int)[0] == (ps@[i as int].name@, ps@[i as int].value@));
        assert(pv.skip(i as int).drop_first() =~= pv.skip(i + 1));
        if crate::text::eq_ignore_case_exec(ps[i].name.as_str(), name) {
            return Some(copy_text(&ps[i].value));
        }
        i = i + 1;
    }
    assert(pv.skip(i as int) =~= Seq::<(Seq<char>, Seq<char>)>::empty());
    None
}

fn missing(model: &String, name: &str) -> (m: String)
    ensures
        m@ == missing_field(model@, name@),
{
    let mut m = copy_text(model);
    append_str(&mut m, " requires ");
    append_str(&mut m, name);
    m
}

fn requirement_of(d: &crate::ast::ExternalSubcircuitDecl) -> (r: Result<ResourceRequirement, String>)
    ensures
        match requirement_spec(d.name@, crate::ast::named_views(d.parameters@)) {
            Ok(q) => r matches Ok(x) && requirement_view(x) == q,
            Err(e) => r matches Err(m) && m@ == e,
        },
{
    let resource = match find_field(&d.parameters, "file") {
        None => {
            return Err(missing(&d.name, "file"));
        },
        Some(v) => v,
    };
    match validate_external_resource_reference(resource.as_str()) {
        Err(m) => {
            return Err(m);
        },
        Ok(()) => {},
    }
    let sha256 = match find_field(&d.parameters, "sha256") {
        None => {
            return Err(missing(&d.name, "sha256"));
        },
        Some(v) => v,
    };
    let simulator = match find_field(&d.parameters, "simulator") {
        None => {
            return Err(missing(&d.name, "simulator"));
        },
        Some(v) => v,
    };
    Ok(ResourceRequirement { model: copy_text(&d.name), resource, sha256, simulator })
}

/// The local model files that a parsed program's external subcircuit
/// declarations ask for, in declaration order. Only discovery: the model
/// text itself is not examined.
pub fn resource_requirements(program: &crate::ast::Program) -> (r: Result<Vec<ResourceRequirement>, String>)
    ensures
        match requirements_spec(crate::ast::external_views(program.external_subcircuits@)) {
            Ok(v) => r matches Ok(x) && x@.map_values(|q: ResourceRequirement| requirement_view(q)) == v,
            Err(e) => r matches Err(m) && m@ == e,
        },
        r is Ok <==> forall|i: int|
            0 <= i < program.external_subcircuits@.len() ==> declares_resource(
                #[trigger] crate::ast::external_views(program.external_subcircuits@)[i],
            ),
        r matches Ok(x) ==> x@.len() == program.external_subcircuits@.len() && forall|i: int|
            0 <= i < x@.len() ==> {
                let ps = crate::ast::named_views(program.external_subcircuits@[i].parameters@);
                &&& (#[trigger] x@[i]).model@ == program.external_subcircuits@[i].name@
                &&& x@[i].resource@ == field_value(ps, "file"@)->0
                &&& x@[i].sha256@ == field_value(ps, "sha256"@)->0
                &&& x@[i].simulator@ == field_value(ps, "simulator"@)->0
            },
{
    proof {
        lemma_requirements_one_per_declaration(crate::ast::external_views(program.external_subcircuits@));
    }
    let ds = &program.external_subcircuits;
    let ghost dv = crate::ast::external_views(ds@);
    let mut out: Vec<ResourceRequirement> = Vec::new();
    let mut i: usize = 0;
    assert(dv.take(0) =~= Seq::<(Seq<char>, Seq<char>, Seq<Seq<char>>, Seq<(Seq<char>, Seq<char>)>)>::empty());
    assert(out@.map_values(|q: ResourceRequirement| requirement_view(q)) =~= Seq::<RequirementView>::empty());
    while i < ds.len()
        invariant
            i <= ds.len(),
            ds@ == program.external_subcircuits@,
            dv == crate::ast::external_views(ds@),
            requirements_spec(dv.take(i as int)) == Ok::<Seq<RequirementView>, Seq<char>>(
                out@.map_values(|q: ResourceRequirement| requirement_view(q)),
            ),
        decreases ds.len() - i,
    {
        assert(dv.take(i + 1).drop_last() =~= dv.take(i as int));
        assert(dv.take(i + 1).last() == dv[i as int]);
        assert(dv[i as int] == (ds@[i as int].kind@, ds@[i as int].name@, views(ds@[i as int].pins@),
            crate::ast::named_views(ds@[i as int].parameters@)));
        match requirement_of(&ds[i]) {
            Err(m) => {
                proof {
                    lemma_requirements_stop(dv, i as int);
                }
                return Err(m);
            },
            Ok(q) => {
                let ghost before = out@.map_values(|q: ResourceRequirement| requirement_view(q));
                out.push(q);
                assert(out@.map_values(|q: ResourceRequirement| requirement_view(q)) =~= before.push(
                    requirement_view(q),
                ));
            },
        }
        i = i + 1;
    }
    assert(dv.take(i as int) =~= dv);
    proof {
        let v = requirements_spec(dv)->Ok_0;
        assert forall|k: int| 0 <= k < out@.len() implies {
            let ps = crate::ast::named_views(program.external_subcircuits@[k].parameters@);
            &&& (#[trigger] out@[k]).model@ == program.external_subcircuits@[k].name@
            &&& out@[k].resource@ == field_value(ps, "file"@)->0
            &&& out@[k].sha256@ == field_value(ps, "sha256"@)->0
            &&& out@[k].simulator@ == field_value(ps, "simulator"@)->0
        } by {
            assert(out@.map_values(|q: ResourceRequirement| requirement_view(q))[k] == requirement_view(out@[k]));
            assert(v[k] == stated_requirement(dv[k]));
        }
    }
    Ok(out)
}

proof fn lemma_requirements_stop(
    ds: Seq<(Seq<char>, Seq<char>, Seq<Seq<char>>, Seq<(Seq<char>, Seq<char>)>)>,
    k: int,
)
    requires
        0 <= k < ds.len(),
        requirements_spec(ds.take(k + 1)) is Err,
    ensures
        requirements_spec(ds) == requirements_spec(ds.take(k + 1)),
    decreases ds.len() - k,
{
    if k + 1 < ds.len() {
        assert(ds.drop_last().take(k + 1) =~= ds.take(k + 1));
        lemma_requirements_stop(ds.drop_last(), k);
    } else {
        assert(ds.take(k + 1) =~= ds);
    }
}


// ---------------------------------------------------------------------------
// Browser analysis decks with bound model files.

/// The lower-cased name a `.subckt` statement defines.
pub open spec fn subckt_entry(line: Seq<char>) -> Option<Seq<char>> {
    let f = words(line);
    if f.len() >= 2 && eq_ignore_case(f[0], ".subckt"@) {
        Some(lower(f[1]))
    } else {
        None
    }
}

/// The names the `.subckt` statements define, in order.
pub open spec fn subckt_names(lines: Seq<Seq<char>>) -> Seq<Seq<char>>
    decreases lines.len(),
{
    if lines.len() == 0 {
        seq![]
    } else {
        let rest = subckt_names(lines.drop_last());
        match subckt_entry(lines.last()) {
            Some(n) => rest.push(n),
            None => rest,
        }
    }
}

/// The subcircuit names that the built-in subcircuit models define.
pub open spec fn builtin_entries(models: Seq<ModelRef>) -> Result<Seq<Seq<char>>, Seq<char>>
    decreases models.len(),
{
    if models.len() == 0 {
        Ok(seq![])
    } else {
        match builtin_entries(models.drop_last()) {
            Err(e) => Err(e),
            Ok(es) => match models.last().definition {
                ModelDefinition::Subcircuit { directive, .. } => match library_statements_spec(directive@) {
                    Err(e) => Err(e),
                    Ok(lines) => Ok(es + subckt_names(lines)),
                },
                _ => Ok(es),
            },
        }
    }
}

/// The names added in turn to `entries`, refused at the first that is
/// already there.
pub open spec fn add_entries(entries: Seq<Seq<char>>, names: Seq<Seq<char>>) -> Result<Seq<Seq<char>>, Seq<char>>
    decreases names.len(),
{
    if names.len() == 0 {
        Ok(entries)
    } else {
        match add_entries(entries, names.drop_last()) {
            Err(e) => Err(e),
            Ok(es) => if es.contains(names.last()) {
                Err(
                    "Browser subcircuit entries collide across selected libraries or built-ins; supply unambiguous model libraries"@,
                )
            } else {
                Ok(es.push(names.last()))
            },
        }
    }
}

/// The lines of `s[start..]` as `str::lines` yields them: split at `\n`, a
/// `\r` before the `\n` dropped, no line after a final `\n`.
pub open spec fn lines_from(s: Seq<char>, start: int) -> Seq<Seq<char>>
    decreases s.len() - start,
{
    if start < 0 || start >= s.len() {
        seq![]
    } else {
        let k = next_char(s, '\n', start);
        proof {
            lemma_next_char(s, '\n', start);
        }
        let raw = s.subrange(start, k);
        let line = if k < s.len() && raw.len() > 0 && raw.last() == '\r' {
            raw.drop_last()
        } else {
            raw
        };
        if k < s.len() {
            seq![line] + lines_from(s, k + 1)
        } else {
            seq![line]
        }
    }
}

/// A deck with every line that is exactly `target` replaced by `body`, the
/// lines joined by `\n` and ended by one.
pub open spec fn substitute_line(deck: Seq<char>, target: Seq<char>, body: Seq<char>) -> Seq<char> {
    join(lines_from(deck, 0).map_values(replace_line(target, body)), "\n"@) + "\n"@
}

/// `body` for the line `target`, any other line unchanged.
pub open spec fn replace_line(target: Seq<char>, body: Seq<char>) -> spec_fn(Seq<char>) -> Seq<char> {
    |l: Seq<char>| if l == target { body } else { l }
}

/// The deck, the files already inserted, and the subcircuit names defined.
pub type DeckState = (Seq<char>, Seq<Seq<char>>, Seq<Seq<char>>);

/// One component model checked for the browser and, for an external
/// library not yet inserted, its text put in place of its include line.
pub open spec fn browser_model_step(st: DeckState, m: ModelRef, res: Seq<(Seq<char>, Seq<u8>)>) -> Result<
    DeckState,
    Seq<char>,
> {
    match m.definition {
        ModelDefinition::ExternalSubcircuit { metadata } => if metadata.simulator
            != SimulatorCompatibility::Ngspice {
            Err(m.name@ + " is native-only: browser simulation does not enable ngspice_ps compatibility"@)
        } else {
            match bound_bytes(res, metadata.resource@) {
                None => Err("Select local model file '"@ + metadata.resource@ + "' in View → Circuit details"@),
                Some(bytes) => if "sha256:"@ + sha256_hex_spec(bytes) != m.provenance.content_hash@ {
                    Err("Model '"@ + m.name@ + "' no longer matches its declared hash"@)
                } else if !vstd::utf8::valid_utf8(bytes) {
                    Err("Model library must be UTF-8"@)
                } else {
                    let text = vstd::utf8::decode_utf8(bytes);
                    match browser_library_spec(text) {
                        Err(r) => Err(m.name@ + " is native-only for this browser profile: "@ + r),
                        Ok(()) => if st.1.contains(metadata.resource@) {
                            Ok(st)
                        } else {
                            match library_statements_spec(text) {
                                Err(e) => Err(e),
                                Ok(lines) => match add_entries(st.2, subckt_names(lines)) {
                                    Err(e) => Err(e),
                                    Ok(es) => Ok(
                                        (
                                            substitute_line(
                                                st.0,
                                                ".include \""@ + metadata.resource@ + "\""@,
                                                text.skip(bom_count(text)),
                                            ),
                                            st.1.push(metadata.resource@),
                                            es,
                                        ),
                                    ),
                                },
                            }
                        },
                    }
                }
            }
        },
        _ => Ok(st),
    }
}

pub open spec fn browser_models(st: DeckState, models: Seq<ModelRef>, res: Seq<(Seq<char>, Seq<u8>)>) -> Result<
    DeckState,
    Seq<char>,
>
    decreases models.len(),
{
    if models.len() == 0 {
        Ok(st)
    } else {
        match browser_models(st, models.drop_last(), res) {
            Err(e) => Err(e),
            Ok(st2) => browser_model_step(st2, models.last(), res),
        }
    }
}

/// The browser analysis deck: the bindings checked, then the component
/// models, each external library checked against its digest and the browser
/// profile and inlined once.
pub open spec fn browser_deck_spec(deck: Seq<char>, models: Seq<ModelRef>, res: Seq<(Seq<char>, Seq<u8>)>) -> Result<
    Seq<char>,
    Seq<char>,
> {
    match resource_bindings_spec(res) {
        Err(e) => Err(e),
        Ok(()) => match builtin_entries(models) {
            Err(e) => Err(e),
            Ok(es) => match browser_models((deck, seq![], es), models, res) {
                Err(e) => Err(e),
                Ok(st) => Ok(st.0),
            },
        },
    }
}


fn subckt_name_of(line: &String) -> (r: Option<String>)
    ensures
        crate::ir::opt_view(r) == subckt_entry(line@),
{
    let w = crate::text::words_of(line.as_str());
    assert(views(w@) =~= words(line@)) by {
        assert(w@.map_values(|x: String| x@) == words(line@));
        assert forall|i: int| 0 <= i < w@.len() implies views(w@)[i] == words(line@)[i] by {
            assert(w@.map_values(|x: String| x@)[i] == w@[i]@);
        }
    }
    if w.len() >= 2 && crate::text::eq_ignore_case_exec(w[0].as_str(), ".subckt") {
        Some(crate::text::to_lower(w[1].as_str()))
    } else {
        None
    }
}

/// Appends the names that the `.subckt` statements define.
fn push_subckt_names(lines: &Vec<String>, names: &mut Vec<String>)
    ensures
        views(final(names)@) == views(old(names)@) + subckt_names(views(lines@)),
{
    let ghost start = views(names@);
    let ghost lv = views(lines@);
    let mut i: usize = 0;
    assert(lv.take(0) =~= Seq::<Seq<char>>::empty());
    assert(start + subckt_names(lv.take(0)) =~= start);
    while i < lines.len()
        invariant
            i <= lines.len(),
            lv == views(lines@),
            views(names@) == start + subckt_names(lv.take(i as int)),
        decreases lines.len() - i,
    {
        proof {
            assert(lv.take(i + 1).drop_last() =~= lv.take(i as int));
            assert(lv.take(i + 1).last() == lines@[i as int]@);
        }
        match subckt_name_of(&lines[i]) {
            Some(n) => {
                let ghost before = views(names@);
                names.push(n);
                assert(views(names@) =~= before.push(n@));
            },
            None => {},
        }
        i = i + 1;
    }
    assert(lv.take(lines.len() as int) =~= lv);
}

proof fn lemma_add_entries_stop(entries: Seq<Seq<char>>, names: Seq<Seq<char>>, n: int)
    requires
        0 <= n <= names.len(),
        add_entries(entries, names.take(n)) is Err,
    ensures
        add_entries(entries, names) == add_entries(entries, names.take(n)),
    decreases names.len() - n,
{
    if n == names.len() {
        assert(names.take(n) =~= names);
    } else {
        assert(names.take(n + 1).drop_last() =~= names.take(n));
        lemma_add_entries_stop(entries, names, n + 1);
    }
}

/// Adds the names in turn, refusing the first one already present.
fn add_new_entries(entries: &mut Vec<String>, names: &Vec<String>) -> (r: Result<(), String>)
    ensures
        match add_entries(views(old(entries)@), views(names@)) {
            Ok(es) => r is Ok && views(final(entries)@) == es,
            Err(e) => r matches Err(m) && m@ == e,
        },
{
    let ghost start = views(entries@);
    let ghost nv = views(names@);
    let mut i: usize = 0;
    assert(nv.take(0) =~= Seq::<Seq<char>>::empty());
    while i < names.len()
        invariant
            i <= names.len(),
            nv == views(names@),
            start == views(old(entries)@),
            add_entries(start, nv.take(i as int)) == Ok::<Seq<Seq<char>>, Seq<char>>(views(entries@)),
        decreases names.len() - i,
    {
        proof {
            assert(nv.take(i + 1).drop_last() =~= nv.take(i as int));
            assert(nv.take(i + 1).last() == names@[i as int]@);
        }
        if has_name(entries, &names[i]) {
            proof {
                lemma_add_entries_stop(start, nv, i + 1);
            }
            return Err(
                owned(
                    "Browser subcircuit entries collide across selected libraries or built-ins; supply unambiguous model libraries",
                ),
            );
        }
        let ghost before = views(entries@);
        let x = owned(names[i].as_str());
        entries.push(x);
        assert(views(entries@) =~= before.push(x@));
        i = i + 1;
    }
    assert(nv.take(names.len() as int) =~= nv);
    Ok(())
}

/// The deck with each line equal to `target` replaced by `body`.
fn substitute_line_exec(deck: &str, target: &String, body: &str) -> (r: String)
    ensures
        r@ == substitute_line(deck@, target@, body@),
{
    let cs = chars_of(deck);
    let ghost f = replace_line(target@, body@);
    let mut parts: Vec<String> = Vec::new();
    let mut start: usize = 0;
    assert(views(parts@) + lines_from(cs@, 0).map_values(f) =~= lines_from(cs@, 0).map_values(f));
    while start < cs.len()
        invariant
            start <= cs.len(),
            cs@ == deck@,
            f == replace_line(target@, body@),
            views(parts@) + lines_from(cs@, start as int).map_values(f) == lines_from(cs@, 0).map_values(f),
        decreases cs.len() - start,
    {
        let k = find_next(&cs, '\n', start);
        proof {
            lemma_next_char(cs@, '\n', start as int);
        }
        let mut end = k;
        if k < cs.len() && end > start && cs[end - 1] == '\r' {
            end = end - 1;
        }
        let line = string_of(&cs, start, end);
        let ghost raw = cs@.subrange(start as int, k as int);
        proof {
            if k < cs.len() && raw.len() > 0 && raw.last() == '\r' {
                assert(raw.drop_last() =~= line@);
            } else {
                assert(raw =~= line@);
            }
        }
        let piece = if crate::text::text_is(line.as_str(), target.as_str()) {
            owned(body)
        } else {
            line
        };
        let ghost before = views(parts@);
        parts.push(piece);
        proof {
            let rest = if k < cs.len() { lines_from(cs@, k + 1) } else { seq![] };
            assert(lines_from(cs@, start as int) == seq![line@] + rest);
            assert((seq![line@] + rest).map_values(f) =~= seq![f(line@)] + rest.map_values(f));
            assert(views(parts@) =~= before.push(piece@));
            if k >= cs.len() {
                assert(rest.map_values(f) =~= Seq::<Seq<char>>::empty());
            }
            assert(views(parts@) + rest.map_values(f) =~= before + (seq![f(line@)] + rest.map_values(f)));
        }
        if k >= cs.len() {
            start = cs.len();
        } else {
            start = k + 1;
        }
    }
    assert(lines_from(cs@, start as int).map_values(f) =~= Seq::<Seq<char>>::empty());
    assert(views(parts@) =~= lines_from(cs@, 0).map_values(f));
    let mut r = crate::erc::join_text(&parts, "\n");
    append_str(&mut r, "\n");
    r
}

proof fn lemma_builtin_entries_stop(models: Seq<ModelRef>, n: int)
    requires
        0 <= n <= models.len(),
        builtin_entries(models.take(n)) is Err,
    ensures
        builtin_entries(models) == builtin_entries(models.take(n)),
    decreases models.len() - n,
{
    if n == models.len() {
        assert(models.take(n) =~= models);
    } else {
        assert(models.take(n + 1).drop_last() =~= models.take(n));
        lemma_builtin_entries_stop(models, n + 1);
    }
}

proof fn lemma_browser_models_stop(st: DeckState, models: Seq<ModelRef>, res: Seq<(Seq<char>, Seq<u8>)>, n: int)
    requires
        0 <= n <= models.len(),
        browser_models(st, models.take(n), res) is Err,
    ensures
        browser_models(st, models, res) == browser_models(st, models.take(n), res),
    decreases models.len() - n,
{
    if n == models.len() {
        assert(models.take(n) =~= models);
    } else {
        assert(models.take(n + 1).drop_last() =~= models.take(n));
        lemma_browser_models_stop(st, models, res, n + 1);
    }
}

/// The text with its leading byte-order marks removed.
fn without_boms(text: &str) -> (r: String)
    ensures
        r@ == text@.skip(bom_count(text@)),
{
    let cs = chars_of(text);
    let mut start: usize = 0;
    while start < cs.len() && cs[start] == '\u{feff}'
        invariant
            start <= cs.len(),
            forall|i: int| 0 <= i < start ==> cs@[i] == '\u{feff}',
        decreases cs.len() - start,
    {
        start = start + 1;
    }
    proof {
        lemma_bom_count(cs@, start as int);
    }
    let r = string_of(&cs, start, cs.len());
    assert(r@ =~= text@.skip(start as int));
    r
}


/// One external model checked for the browser and, where its file is not
/// yet inlined, inlined in the deck; on refusal, the message.
fn browser_model(
    deck: &mut String,
    inserted: &mut Vec<String>,
    entries: &mut Vec<String>,
    m: &ModelRef,
    resources: &ExternalModelResources,
) -> (r: Result<(), String>)
    ensures
        match browser_model_step((old(deck)@, views(old(inserted)@), views(old(entries)@)), *m, resources@) {
            Ok(st) => r is Ok && (final(deck)@, views(final(inserted)@), views(final(entries)@)) == st,
            Err(e) => r matches Err(x) && x@ == e,
        },
{
    let metadata = match &m.definition {
        ModelDefinition::ExternalSubcircuit { metadata } => metadata,
        _ => {
            return Ok(());
        },
    };
    match metadata.simulator {
        SimulatorCompatibility::Ngspice => {},
        _ => {
            let mut e = owned(m.name.as_str());
            append_str(&mut e, " is native-only: browser simulation does not enable ngspice_ps compatibility");
            return Err(e);
        },
    }
    let bytes = match resources.get(metadata.resource.as_str()) {
        Some(b) => b,
        None => {
            let mut e = owned("Select local model file '");
            append_str(&mut e, metadata.resource.as_str());
            append_str(&mut e, "' in View → Circuit details");
            return Err(e);
        },
    };
    let mut digest = owned("sha256:");
    let hex = crate::hashing::sha256_hex(bytes.as_slice());
    append_str(&mut digest, hex.as_str());
    if !crate::text::text_is(digest.as_str(), m.provenance.content_hash.as_str()) {
        let mut e = owned("Model '");
        append_str(&mut e, m.name.as_str());
        append_str(&mut e, "' no longer matches its declared hash");
        return Err(e);
    }
    let text = match crate::text::utf8_text(bytes.as_slice()) {
        Some(t) => t,
        None => {
            return Err(owned("Model library must be UTF-8"));
        },
    };
    proof {
        vstd::utf8::encode_utf8_decode_utf8(text@);
        vstd::utf8::encode_utf8_valid_utf8(text@);
    }
    match validate_browser_library(text) {
        Err(reason) => {
            let mut e = owned(m.name.as_str());
            append_str(&mut e, " is native-only for this browser profile: ");
            append_str(&mut e, reason.as_str());
            return Err(e);
        },
        Ok(()) => {},
    }
    if has_name(inserted, &metadata.resource) {
        return Ok(());
    }
    let lines = match library_statements(text) {
        Err(e) => {
            return Err(e);
        },
        Ok(l) => l,
    };
    let mut names: Vec<String> = Vec::new();
    assert(views(names@) =~= Seq::<Seq<char>>::empty());
    push_subckt_names(&lines, &mut names);
    assert(views(names@) =~= subckt_names(views(lines@)));
    match add_new_entries(entries, &names) {
        Err(e) => {
            return Err(e);
        },
        Ok(()) => {},
    }
    let mut target = owned(".include \"");
    append_str(&mut target, metadata.resource.as_str());
    append_str(&mut target, "\"");
    let body = without_boms(text);
    let next = substitute_line_exec(deck.as_str(), &target, body.as_str());
    *deck = next;
    let ghost before = views(inserted@);
    let res = owned(metadata.resource.as_str());
    inserted.push(res);
    assert(views(inserted@) =~= before.push(res@));
    Ok(())
}

/// The browser analysis deck of a circuit: `deck` is its generated netlist,
/// `models` the models of its components in order. The bound files are
/// checked first; each external library must match its digest, be UTF-8 and
/// fit the browser profile, and is inlined in place of its include line
/// once, its subcircuit names clashing with no built-in or earlier one.
pub fn browser_analysis_with_resources(
    deck: &str,
    models: &Vec<ModelRef>,
    resources: &ExternalModelResources,
) -> (r: Result<String, String>)
    ensures
        match browser_deck_spec(deck@, models@, resources@) {
            Ok(d) => r matches Ok(x) && x@ == d,
            Err(e) => r matches Err(x) && x@ == e,
        },
{
    match validate_resource_bindings(resources) {
        Err(e) => {
            return Err(e);
        },
        Ok(()) => {},
    }
    let ghost mv = models@;
    let mut entries: Vec<String> = Vec::new();
    let mut i: usize = 0;
    assert(mv.take(0) =~= Seq::<ModelRef>::empty());
    assert(views(entries@) =~= Seq::<Seq<char>>::empty());
    while i < models.len()
        invariant
            i <= models.len(),
            mv == models@,
            resource_bindings_spec(resources@) is Ok,
            builtin_entries(mv.take(i as int)) == Ok::<Seq<Seq<char>>, Seq<char>>(views(entries@)),
        decreases models.len() - i,
    {
        proof {
            assert(mv.take(i + 1).drop_last() =~= mv.take(i as int));
            assert(mv.take(i + 1).last() == models@[i as int]);
        }
        match &models[i].definition {
            ModelDefinition::Subcircuit { directive, .. } => {
                match library_statements(directive.as_str()) {
                    Err(e) => {
                        proof {
                            lemma_builtin_entries_stop(mv, i + 1);
                        }
                        return Err(e);
                    },
                    Ok(lines) => {
                        push_subckt_names(&lines, &mut entries);
                    },
                }
            },
            _ => {},
        }
        i = i + 1;
    }
    assert(mv.take(models.len() as int) =~= mv);
    let ghost es0 = views(entries@);
    let ghost st0: DeckState = (deck@, seq![], es0);
    let mut out = owned(deck);
    let mut inserted: Vec<String> = Vec::new();
    let mut j: usize = 0;
    assert(views(inserted@) =~= Seq::<Seq<char>>::empty());
    while j < models.len()
        invariant
            j <= models.len(),
            mv == models@,
            builtin_entries(mv) == Ok::<Seq<Seq<char>>, Seq<char>>(es0),
            resource_bindings_spec(resources@) is Ok,
            st0 == (deck@, Seq::<Seq<char>>::empty(), es0),
            browser_models(st0, mv.take(j as int), resources@) == Ok::<DeckState, Seq<char>>(
                (out@, views(inserted@), views(entries@)),
            ),
        decreases models.len() - j,
    {
        proof {
            assert(mv.take(j + 1).drop_last() =~= mv.take(j as int));
            assert(mv.take(j + 1).last() == models@[j as int]);
        }
        match browser_model(&mut out, &mut inserted, &mut entries, &models[j], resources) {
            Err(e) => {
                proof {
                    lemma_browser_models_stop(st0, mv, resources@, j + 1);
                }
                return Err(e);
            },
            Ok(()) => {},
        }
        j = j + 1;
    }
    assert(mv.take(models.len() as int) =~= mv);
    Ok(out)
}

} // verus!
