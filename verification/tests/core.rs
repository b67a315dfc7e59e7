use ryo_frontend::diag::{Diag, DiagCode, DiagSink, Severity};
use ryo_frontend::text::{decimal_string, str_eq};
use ryo_frontend::types::{InternPool, Span, StringId, TypeKind};
use ryo_frontend::vecmap::VecMap;

#[test]
fn intern_same_name_twice_gives_one_handle() {
    let mut pool = InternPool::new();
    let a = pool.intern_str("alpha");
    let before = pool.len();
    let b = pool.intern_str("alpha");
    assert_eq!(a, b);
    assert_eq!(pool.len(), before);
    assert_eq!(pool.str(a), "alpha");
}

#[test]
fn intern_distinct_names_gives_distinct_handles() {
    let mut pool = InternPool::new();
    let a = pool.intern_str("alpha");
    let b = pool.intern_str("beta");
    assert_ne!(a, b);
    assert_eq!(pool.str(b), "beta");
    assert_eq!(pool.find_str("beta"), Some(b));
    assert_eq!(pool.find_str("gamma"), None);
}

#[test]
fn primitive_type_kinds() {
    let pool = InternPool::new();
    assert_eq!(pool.kind(pool.void()), TypeKind::Void);
    assert_eq!(pool.kind(pool.int_()), TypeKind::Int);
    assert_eq!(pool.kind(pool.str_()), TypeKind::Str);
    assert_eq!(pool.kind(pool.bool_()), TypeKind::Bool);
    assert_ne!(pool.str_(), pool.str_view());
}

#[test]
fn only_owned_strings_are_not_copy() {
    let pool = InternPool::new();
    assert!(pool.is_copy(pool.void()));
    assert!(pool.is_copy(pool.str_view()));
    assert!(!pool.is_copy(pool.str_()));
}

#[test]
fn span_new_keeps_bounds() {
    let s = Span::new(3, 9);
    assert_eq!(s.start, 3);
    assert_eq!(s.end, 9);
}

#[test]
fn vecmap_insert_get_remove() {
    let mut m: VecMap<StringId, u32> = VecMap::new();
    assert_eq!(m.len(), 0);
    m.insert(StringId(4), 40);
    m.insert(StringId(2), 20);
    assert_eq!(m.len(), 2);
    assert_eq!(m.get(&StringId(4)), Some(&40));
    // Inserting an existing key replaces its value in place.
    m.insert(StringId(4), 41);
    assert_eq!(m.len(), 2);
    assert_eq!(m.get(&StringId(4)), Some(&41));
    assert_eq!(*m.entry(0).0, StringId(4));
    assert_eq!(m.index_of(&StringId(2)), Some(1));
    assert_eq!(m.remove(&StringId(4)), Some(41));
    assert!(!m.contains_key(&StringId(4)));
    assert_eq!(m.remove(&StringId(4)), None);
    assert_eq!(m.len(), 1);
}

#[test]
fn vecmap_retain_positions_and_clear() {
    let mut m: VecMap<StringId, u32> = VecMap::new();
    m.insert(StringId(1), 10);
    m.insert(StringId(2), 20);
    m.insert(StringId(3), 30);
    m.retain_positions(vec![true, false, true]);
    assert_eq!(m.len(), 2);
    assert!(m.contains_key(&StringId(1)));
    assert!(!m.contains_key(&StringId(2)));
    assert_eq!(m.get(&StringId(3)), Some(&30));
    let c = m.copy();
    m.clear();
    assert_eq!(m.len(), 0);
    assert_eq!(c.len(), 2);
}

#[test]
fn decimal_rendering() {
    assert_eq!(decimal_string(0), "0");
    assert_eq!(decimal_string(7), "7");
    assert_eq!(decimal_string(10), "10");
    assert_eq!(decimal_string(4096), "4096");
}

#[test]
fn string_equality() {
    assert!(str_eq("main", "main"));
    assert!(!str_eq("main", "mains"));
    assert!(str_eq("", ""));
}

#[test]
fn diag_builders_and_sink() {
    let d = Diag::error(Span::new(1, 2), DiagCode::UseAfterMove, String::from("used"))
        .with_note(Some(Span::new(0, 1)), "moved here")
        .with_help("clone it");
    assert_eq!(d.severity, Severity::Error);
    assert_eq!(d.notes.len(), 1);
    assert_eq!(d.notes[0].message, "moved here");
    assert_eq!(d.help.as_deref(), Some("clone it"));

    let mut sink = DiagSink::new();
    assert!(sink.is_empty());
    sink.emit(Diag::warning(Span::new(0, 0), DiagCode::DeadStore, String::from("dead")));
    assert!(!sink.is_empty());
    assert!(!sink.has_errors());
    let mut other = DiagSink::new();
    other.emit(d);
    sink.absorb(other);
    assert!(sink.has_errors());
    let diags = sink.into_diags();
    assert_eq!(diags.len(), 2);
    assert_eq!(diags[0].code, DiagCode::DeadStore);
    assert_eq!(diags[1].code, DiagCode::UseAfterMove);
}
