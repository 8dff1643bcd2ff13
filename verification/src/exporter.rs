//! Export formats, what each one preserves, and the artifact that an export produces.
use crate::hashing::{sha256_hex, sha256_hex_spec};
use crate::text::{append_str, owned, to_lower};
use vstd::prelude::*;

verus! {

pub const EXPORT_SCHEMA_VERSION: &'static str = "kessetsu.export.v1";

#[derive(Debug, Clone, Copy, PartialEq, Eq, Structural)]
pub enum ExportFormat {
    Svg,
    Png,
    Pdf,
    SchematicJson,
    Spice,
    Kicad,
    Ltspice,
}

#[derive(Debug, Clone, Copy, PartialEq, Eq, Structural)]
pub struct ExportCapability {
    pub visual: bool,
    pub machine_readable: bool,
    pub editable: bool,
    pub preserves_connectivity: bool,
    pub preserves_models: bool,
    pub preserves_analysis: bool,
}

pub open spec fn format_id(f: ExportFormat) -> Seq<char> {
    match f {
        ExportFormat::Svg => "svg"@,
        ExportFormat::Png => "png"@,
        ExportFormat::Pdf => "pdf"@,
        ExportFormat::SchematicJson => "schematic-json"@,
        ExportFormat::Spice => "spice"@,
        ExportFormat::Kicad => "kicad"@,
        ExportFormat::Ltspice => "ltspice"@,
    }
}

pub open spec fn format_extension(f: ExportFormat) -> Seq<char> {
    match f {
        ExportFormat::Svg => "svg"@,
        ExportFormat::Png => "png"@,
        ExportFormat::Pdf => "pdf"@,
        ExportFormat::SchematicJson => "schematic.json"@,
        ExportFormat::Spice => "spice"@,
        ExportFormat::Kicad => "kicad_sch"@,
        ExportFormat::Ltspice => "asc"@,
    }
}

pub open spec fn format_mime(f: ExportFormat) -> Seq<char> {
    match f {
        ExportFormat::Svg => "image/svg+xml"@,
        ExportFormat::Png => "image/png"@,
        ExportFormat::Pdf => "application/pdf"@,
        ExportFormat::SchematicJson => "application/json"@,
        ExportFormat::Spice | ExportFormat::Kicad | ExportFormat::Ltspice => "text/plain"@,
    }
}

/// A capability spelled out field by field: visual, machine readable, editable,
/// preserves connectivity, models, analysis.
pub open spec fn capability_of(v: bool, m: bool, e: bool, c: bool, pm: bool, pa: bool) -> ExportCapability {
    ExportCapability {
        visual: v,
        machine_readable: m,
        editable: e,
        preserves_connectivity: c,
        preserves_models: pm,
        preserves_analysis: pa,
    }
}

pub open spec fn format_capability(f: ExportFormat) -> ExportCapability {
    match f {
        ExportFormat::Svg => capability_of(true, false, true, true, false, false),
        ExportFormat::Png => capability_of(true, false, false, true, false, false),
        ExportFormat::Pdf => capability_of(true, false, true, true, false, false),
        ExportFormat::SchematicJson => capability_of(false, true, true, true, true, false),
        ExportFormat::Spice => capability_of(false, true, true, true, true, true),
        ExportFormat::Kicad => capability_of(true, true, true, true, false, false),
        ExportFormat::Ltspice => capability_of(true, true, true, true, true, true),
    }
}

impl ExportFormat {
    pub fn id(self) -> (r: &'static str)
        ensures
            r@ == format_id(self),
    {
        match self {
            ExportFormat::Svg => "svg",
            ExportFormat::Png => "png",
            ExportFormat::Pdf => "pdf",
            ExportFormat::SchematicJson => "schematic-json",
            ExportFormat::Spice => "spice",
            ExportFormat::Kicad => "kicad",
            ExportFormat::Ltspice => "ltspice",
        }
    }

    pub fn extension(self) -> (r: &'static str)
        ensures
            r@ == format_extension(self),
    {
        match self {
            ExportFormat::Svg => "svg",
            ExportFormat::Png => "png",
            ExportFormat::Pdf => "pdf",
            ExportFormat::SchematicJson => "schematic.json",
            ExportFormat::Spice => "spice",
            ExportFormat::Kicad => "kicad_sch",
            ExportFormat::Ltspice => "asc",
        }
    }

    pub fn mime_type(self) -> (r: &'static str)
        ensures
            r@ == format_mime(self),
    {
        match self {
            ExportFormat::Svg => "image/svg+xml",
            ExportFormat::Png => "image/png",
            ExportFormat::Pdf => "application/pdf",
            ExportFormat::SchematicJson => "application/json",
            ExportFormat::Spice | ExportFormat::Kicad | ExportFormat::Ltspice => "text/plain",
        }
    }

    pub fn capability(self) -> (r: ExportCapability)
        ensures
            r == format_capability(self),
    {
        match self {
            ExportFormat::Svg => ExportCapability::visual(true, false),
            ExportFormat::Png => ExportCapability::visual(false, false),
            ExportFormat::Pdf => ExportCapability::visual(true, false),
            ExportFormat::SchematicJson => ExportCapability {
                visual: false,
                machine_readable: true,
                editable: true,
                preserves_connectivity: true,
                preserves_models: true,
                preserves_analysis: false,
            },
            ExportFormat::Spice => ExportCapability {
                visual: false,
                machine_readable: true,
                editable: true,
                preserves_connectivity: true,
                preserves_models: true,
                preserves_analysis: true,
            },
            ExportFormat::Kicad => ExportCapability {
                visual: true,
                machine_readable: true,
                editable: true,
                preserves_connectivity: true,
                preserves_models: false,
                preserves_analysis: false,
            },
            ExportFormat::Ltspice => ExportCapability {
                visual: true,
                machine_readable: true,
                editable: true,
                preserves_connectivity: true,
                preserves_models: true,
                preserves_analysis: true,
            },
        }
    }

    /// The format named by `value`, ignoring ASCII case, with its accepted aliases.
    pub fn parse(value: &str) -> (r: Result<ExportFormat, String>)
        ensures
            r matches Ok(f) ==> parse_spec(crate::text::lower(value@)) == Some(f),
            r is Err ==> parse_spec(crate::text::lower(value@)) is None && r->Err_0@ == unsupported_format_message(value@),
    {
        let v = to_lower(value);
        let s = v.as_str();
        if crate::text::text_is(s, "svg") {
            Ok(ExportFormat::Svg)
        } else if crate::text::text_is(s, "png") {
            Ok(ExportFormat::Png)
        } else if crate::text::text_is(s, "pdf") {
            Ok(ExportFormat::Pdf)
        } else if crate::text::text_is(s, "schematic-json") || crate::text::text_is(s, "schematic_json")
            || crate::text::text_is(s, "json") {
            Ok(ExportFormat::SchematicJson)
        } else if crate::text::text_is(s, "spice") || crate::text::text_is(s, "cir") {
            Ok(ExportFormat::Spice)
        } else if crate::text::text_is(s, "kicad") || crate::text::text_is(s, "kicad-sch")
            || crate::text::text_is(s, "kicad_sch") {
            Ok(ExportFormat::Kicad)
        } else if crate::text::text_is(s, "ltspice") || crate::text::text_is(s, "asc") {
            Ok(ExportFormat::Ltspice)
        } else {
            let mut m = owned("unsupported export format '");
            append_str(&mut m, value);
            append_str(&mut m, "'; expected svg, png, pdf, schematic-json, spice, kicad, or ltspice");
            Err(m)
        }
    }
}

/// The format that a lowercased name selects.
pub open spec fn parse_spec(v: Seq<char>) -> Option<ExportFormat> {
    if v == "svg"@ {
        Some(ExportFormat::Svg)
    } else if v == "png"@ {
        Some(ExportFormat::Png)
    } else if v == "pdf"@ {
        Some(ExportFormat::Pdf)
    } else if v == "schematic-json"@ || v == "schematic_json"@ || v == "json"@ {
        Some(ExportFormat::SchematicJson)
    } else if v == "spice"@ || v == "cir"@ {
        Some(ExportFormat::Spice)
    } else if v == "kicad"@ || v == "kicad-sch"@ || v == "kicad_sch"@ {
        Some(ExportFormat::Kicad)
    } else if v == "ltspice"@ || v == "asc"@ {
        Some(ExportFormat::Ltspice)
    } else {
        None
    }
}

pub open spec fn unsupported_format_message(value: Seq<char>) -> Seq<char> {
    "unsupported export format '"@ + value
        + "'; expected svg, png, pdf, schematic-json, spice, kicad, or ltspice"@
}

/// A format's own name selects that format, whatever the ASCII case it is written in:
/// every name equal to the id up to case, the uppercased id among them, parses back to it.
pub proof fn lemma_format_name_round_trip(f: ExportFormat)
    ensures
        forall|s: Seq<char>| #[trigger] crate::text::eq_ignore_case(s, format_id(f))
            ==> parse_spec(crate::text::lower(s)) == Some(f),
        parse_spec(crate::text::lower(crate::text::upper(format_id(f)))) == Some(f),
{
    reveal_strlit("svg");
    reveal_strlit("png");
    reveal_strlit("pdf");
    reveal_strlit("schematic-json");
    reveal_strlit("schematic_json");
    reveal_strlit("json");
    reveal_strlit("spice");
    reveal_strlit("cir");
    reveal_strlit("kicad");
    reveal_strlit("kicad-sch");
    reveal_strlit("kicad_sch");
    reveal_strlit("ltspice");
    reveal_strlit("asc");
    let id = format_id(f);
    assert(crate::text::lower(id) =~= id);
    assert("svg"@[0] != "png"@[0] && "svg"@[0] != "pdf"@[0] && "png"@[1] != "pdf"@[1]);
    assert("kicad"@[0] != "spice"@[0]);
    assert(parse_spec(id) == Some(f));
    let u = crate::text::upper(id);
    assert forall|i: int| 0 <= i < id.len() implies crate::text::ascii_lower_char(
        #[trigger] u[i],
    ) == crate::text::ascii_lower_char(id[i]) by {
        let c = id[i];
        if crate::text::is_ascii_lower(c) {
            assert(crate::text::is_ascii_upper(u[i]));
        }
    }
    assert(crate::text::lower(u) =~= crate::text::lower(id));
}

impl std::str::FromStr for ExportFormat {
    type Err = String;

    fn from_str(value: &str) -> (r: Result<ExportFormat, String>)
        ensures
            r matches Ok(f) ==> parse_spec(crate::text::lower(value@)) == Some(f),
            r is Err ==> parse_spec(crate::text::lower(value@)) is None && r->Err_0@ == unsupported_format_message(value@),
    {
        ExportFormat::parse(value)
    }
}

impl ExportCapability {
    fn visual(editable: bool, preserves_models: bool) -> (r: ExportCapability)
        ensures
            r == capability_of(true, false, editable, true, preserves_models, false),
    {
        ExportCapability {
            visual: true,
            machine_readable: false,
            editable,
            preserves_connectivity: true,
            preserves_models,
            preserves_analysis: false,
        }
    }
}

#[derive(Debug, Clone, PartialEq, Eq)]
pub struct ExportDescriptor {
    pub schema_version: String,
    pub format: ExportFormat,
    pub label: String,
    pub extension: String,
    pub mime_type: String,
    pub capability: ExportCapability,
}

/// The formats in catalog order, each with its display label.
pub open spec fn format_catalog() -> Seq<(ExportFormat, Seq<char>)> {
    seq![
        (ExportFormat::Svg, "SVG"@),
        (ExportFormat::Png, "PNG"@),
        (ExportFormat::Pdf, "PDF"@),
        (ExportFormat::SchematicJson, "Schematic JSON"@),
        (ExportFormat::Spice, "SPICE"@),
        (ExportFormat::Kicad, "KiCad"@),
        (ExportFormat::Ltspice, "LTspice"@),
    ]
}

/// The descriptor that the catalog gives a format with a label.
pub open spec fn describes(d: ExportDescriptor, f: ExportFormat, label: Seq<char>) -> bool {
    &&& d.schema_version@ == EXPORT_SCHEMA_VERSION@
    &&& d.format == f
    &&& d.label@ == label
    &&& d.extension@ == format_extension(f)
    &&& d.mime_type@ == format_mime(f)
    &&& d.capability == format_capability(f)
}

fn descriptor(format: ExportFormat, label: &str) -> (d: ExportDescriptor)
    ensures
        describes(d, format, label@),
{
    ExportDescriptor {
        schema_version: owned(EXPORT_SCHEMA_VERSION),
        format,
        label: owned(label),
        extension: owned(format.extension()),
        mime_type: owned(format.mime_type()),
        capability: format.capability(),
    }
}

/// One descriptor per export format, in catalog order.
pub fn export_capabilities() -> (r: Vec<ExportDescriptor>)
    ensures
        r@.len() == format_catalog().len(),
        forall|i: int|
            0 <= i < r@.len() ==> describes(#[trigger] r@[i], format_catalog()[i].0, format_catalog()[i].1),
{
    let mut r: Vec<ExportDescriptor> = Vec::new();
    r.push(descriptor(ExportFormat::Svg, "SVG"));
    r.push(descriptor(ExportFormat::Png, "PNG"));
    r.push(descriptor(ExportFormat::Pdf, "PDF"));
    r.push(descriptor(ExportFormat::SchematicJson, "Schematic JSON"));
    r.push(descriptor(ExportFormat::Spice, "SPICE"));
    r.push(descriptor(ExportFormat::Kicad, "KiCad"));
    r.push(descriptor(ExportFormat::Ltspice, "LTspice"));
    r
}

#[derive(Debug, Clone, Copy, PartialEq, Eq, Structural)]
pub enum RenderBackground {
    White,
    Transparent,
}

#[derive(Debug, Clone)]
pub struct ExportArtifact {
    pub schema_version: String,
    pub exporter: String,
    pub exporter_version: u32,
    pub format: ExportFormat,
    pub label: String,
    pub extension: String,
    pub mime_type: String,
    pub sha256: String,
    pub byte_length: usize,
    pub connectivity_verified: bool,
    pub capability: ExportCapability,
    pub warnings: Vec<String>,
    pub losses: Vec<String>,
    pub bytes: Vec<u8>,
}

/// An export failure; the diagnostics of a refused report travel as messages.
#[derive(Debug, Clone)]
pub struct ExportError {
    pub code: String,
    pub message: String,
}

pub open spec fn catalog_label(f: ExportFormat) -> Seq<char> {
    match f {
        ExportFormat::Svg => "SVG"@,
        ExportFormat::Png => "PNG"@,
        ExportFormat::Pdf => "PDF"@,
        ExportFormat::SchematicJson => "Schematic JSON"@,
        ExportFormat::Spice => "SPICE"@,
        ExportFormat::Kicad => "KiCad"@,
        ExportFormat::Ltspice => "LTspice"@,
    }
}

/// The catalog label of a format, looked up in the export catalog.
fn label_of(format: ExportFormat) -> (r: String)
    ensures
        r@ == catalog_label(format),
{
    let all = export_capabilities();
    let mut i: usize = 0;
    while i < all.len()
        invariant
            i <= all@.len(),
            all@.len() == format_catalog().len(),
            forall|j: int|
                0 <= j < all@.len() ==> describes(#[trigger] all@[j], format_catalog()[j].0, format_catalog()[j].1),
            forall|j: int| 0 <= j < i ==> (#[trigger] format_catalog()[j]).0 != format,
        decreases all.len() - i,
    {
        if all[i].format == format {
            assert(describes(all@[i as int], format_catalog()[i as int].0, format_catalog()[i as int].1));
            return all[i].label.clone();
        }
        i = i + 1;
    }
    assert(format_catalog()[0].0 == ExportFormat::Svg);
    assert(format_catalog()[6].0 == ExportFormat::Ltspice);
    assert(false) by {
        match format {
            ExportFormat::Svg => assert(format_catalog()[0].0 == format),
            ExportFormat::Png => assert(format_catalog()[1].0 == format),
            ExportFormat::Pdf => assert(format_catalog()[2].0 == format),
            ExportFormat::SchematicJson => assert(format_catalog()[3].0 == format),
            ExportFormat::Spice => assert(format_catalog()[4].0 == format),
            ExportFormat::Kicad => assert(format_catalog()[5].0 == format),
            ExportFormat::Ltspice => assert(format_catalog()[6].0 == format),
        }
    }
    owned(format.id())
}

/// Packages the bytes of an export; an export that must preserve connectivity is
/// refused when its connectivity was not verified.
pub fn build_artifact(
    format: ExportFormat,
    bytes: Vec<u8>,
    connectivity_verified: bool,
    warnings: Vec<String>,
    losses: Vec<String>,
) -> (r: Result<ExportArtifact, ExportError>)
    ensures
        !connectivity_verified && format_capability(format).preserves_connectivity <==> r is Err,
        r matches Err(e) ==> e.code@ == "KES-X003"@ && e.message@
            == "canonical connectivity proof failed; export stopped"@,
        r matches Ok(a) ==> {
            &&& a.schema_version@ == EXPORT_SCHEMA_VERSION@
            &&& a.exporter@ == "kessetsu-"@ + format_id(format)
            &&& a.exporter_version == 1
            &&& a.format == format
            &&& a.label@ == catalog_label(format)
            &&& a.extension@ == format_extension(format)
            &&& a.mime_type@ == format_mime(format)
            &&& a.sha256@ == sha256_hex_spec(bytes@)
            &&& a.byte_length == bytes@.len()
            &&& a.connectivity_verified == connectivity_verified
            &&& a.capability == format_capability(format)
            &&& a.warnings@ == warnings@
            &&& a.losses@ == losses@
            &&& a.bytes@ == bytes@
        },
{
    if !connectivity_verified && format.capability().preserves_connectivity {
        return Err(
            ExportError {
                code: owned("KES-X003"),
                message: owned("canonical connectivity proof failed; export stopped"),
            },
        );
    }
    let sha256 = sha256_hex(bytes.as_slice());
    let mut exporter = owned("kessetsu-");
    append_str(&mut exporter, format.id());
    let byte_length = bytes.len();
    Ok(
        ExportArtifact {
            schema_version: owned(EXPORT_SCHEMA_VERSION),
            exporter,
            exporter_version: 1,
            format,
            label: label_of(format),
            extension: owned(format.extension()),
            mime_type: owned(format.mime_type()),
            sha256,
            byte_length,
            connectivity_verified,
            capability: format.capability(),
            warnings,
            losses,
            bytes,
        },
    )
}

} // verus!
