use kessetsu::lowering::parse_u32;
use kessetsu::ltspice::{placement, NativeTransform};

fn pins(v: &[(&str, i32, i32)]) -> Vec<(String, i32, i32)> {
    v.iter().map(|(n, x, y)| (n.to_string(), *x, *y)).collect()
}

#[test]
fn native_transform_turns_mirrors_and_undoes() {
    let t = NativeTransform { turns: 1, mirrored: false };
    assert_eq!(t.apply(3, 5), (-5, 3));
    assert_eq!(t.inverse(-5, 3), (3, 5));
    let m = NativeTransform { turns: 3, mirrored: true };
    let p = m.apply(7, -2);
    assert_eq!(p, (-2, 7));
    assert_eq!(m.inverse(p.0, p.1), (7, -2));
    assert_eq!(NativeTransform { turns: 2, mirrored: false }.name(), "R180");
    assert_eq!(m.name(), "M270");
    assert_eq!(NativeTransform { turns: 0, mirrored: false }.name(), "R0");
}

#[test]
fn placement_takes_the_cheapest_orientation() {
    let component = pins(&[("p1", 0, 0), ("p2", 0, 2)]);
    let (x, y, t) = placement(&pins(&[("p1", 16, 16), ("p2", 16, 96)]), &component, 0, 0);
    assert_eq!((x, y, t), (144, 144, NativeTransform { turns: 0, mirrored: false }));
    let (x, y, t) = placement(&pins(&[("p1", 16, 96), ("p2", 16, 16)]), &component, 0, 0);
    assert_eq!((x, y, t), (176, 256, NativeTransform { turns: 2, mirrored: false }));
}

#[test]
fn decimal_u32_reads_as_std_does() {
    assert_eq!(parse_u32("12"), Some(12));
    assert_eq!(parse_u32("+0012"), Some(12));
    assert_eq!(parse_u32("4294967295"), Some(u32::MAX));
    assert_eq!(parse_u32("4294967296"), None);
    assert_eq!(parse_u32(""), None);
    assert_eq!(parse_u32("+"), None);
    assert_eq!(parse_u32("-1"), None);
    assert_eq!(parse_u32("1e3"), None);
    for s in ["0", "7", "+9", "99999", "abc", " 1", "4294967295", "42949672950"] {
        assert_eq!(parse_u32(s), s.parse::<u32>().ok(), "{s}");
    }
}
