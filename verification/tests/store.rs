use dc_param::param::{
    dc_param_empty, dc_param_exists, dc_param_get, dc_param_get_int, dc_param_new, dc_param_set,
    dc_param_set_int, dc_param_set_packed, dc_param_set_urlencoded, dc_param_t, dc_param_unref,
    find_param,
};

fn packed(text: &[u8]) -> dc_param_t {
    let mut p = dc_param_new();
    dc_param_set_packed(&mut p, Some(text));
    p
}

fn get(p: &dc_param_t, key: u8, def: &[u8]) -> Vec<u8> {
    dc_param_get(p, key as i32, Some(def)).unwrap()
}

#[test]
fn new_store_is_empty() {
    let p = dc_param_new();
    assert_eq!(p.packed, Vec::<u8>::new());
}

#[test]
fn new_store_has_no_key() {
    let p = dc_param_new();
    for key in 0..=300 {
        assert!(!dc_param_exists(&p, key));
    }
    assert!(!dc_param_exists(&p, -1));
}

#[test]
fn set_and_remove_step_by_step() {
    let mut p = dc_param_new();
    dc_param_set(&mut p, 'a' as i32, Some(b"hello"));
    assert_eq!(p.packed, b"a=hello".to_vec());
    dc_param_set(&mut p, 'b' as i32, Some(b"x"));
    assert_eq!(p.packed, b"a=hello\nb=x".to_vec());
    dc_param_set(&mut p, 'a' as i32, None);
    assert_eq!(p.packed, b"b=x".to_vec());
    dc_param_set(&mut p, 'b' as i32, None);
    assert_eq!(p.packed, b"".to_vec());
}

#[test]
fn set_then_get_returns_value() {
    let mut p = packed(b"x=1\ny=2");
    dc_param_set(&mut p, 'k' as i32, Some(b"some value"));
    assert_eq!(get(&p, b'k', b"other"), b"some value".to_vec());
    assert_eq!(get(&p, b'k', b""), b"some value".to_vec());
    assert_eq!(dc_param_get(&p, 'k' as i32, None), Some(b"some value".to_vec()));
    dc_param_set(&mut p, 'x' as i32, Some(b"new"));
    assert_eq!(get(&p, b'x', b"other"), b"new".to_vec());
    assert_eq!(get(&p, b'y', b"other"), b"2".to_vec());
}

#[test]
fn removed_key_is_gone() {
    let mut p = packed(b"a=1\nb=2\nc=3");
    dc_param_set(&mut p, 'b' as i32, None);
    assert!(!dc_param_exists(&p, 'b' as i32));
    assert_eq!(get(&p, b'b', b"default"), b"default".to_vec());
    assert_eq!(dc_param_get(&p, 'b' as i32, None), None);
    assert_eq!(p.packed, b"a=1\nc=3".to_vec());
}

#[test]
fn remove_first_and_last_entry() {
    let mut p = packed(b"a=1\nb=2\nc=3");
    dc_param_set(&mut p, 'a' as i32, None);
    assert_eq!(p.packed, b"b=2\nc=3".to_vec());
    dc_param_set(&mut p, 'c' as i32, None);
    assert_eq!(p.packed, b"b=2".to_vec());
}

#[test]
fn remove_absent_key_changes_nothing() {
    let mut p = packed(b"a=1 \n");
    dc_param_set(&mut p, 'z' as i32, None);
    assert_eq!(p.packed, b"a=1 \n".to_vec());
}

#[test]
fn set_twice_is_set_once() {
    let mut once = packed(b"a=1\nb=2\nc=3");
    dc_param_set(&mut once, 'b' as i32, Some(b"value"));
    let mut twice = packed(b"a=1\nb=2\nc=3");
    dc_param_set(&mut twice, 'b' as i32, Some(b"value"));
    dc_param_set(&mut twice, 'b' as i32, Some(b"value"));
    assert_eq!(once.packed, twice.packed);
    let mut fresh = dc_param_new();
    dc_param_set(&mut fresh, 'q' as i32, Some(b"v "));
    let first = fresh.packed.clone();
    dc_param_set(&mut fresh, 'q' as i32, Some(b"v "));
    assert_eq!(fresh.packed, first);
}

#[test]
fn set_keeps_order() {
    let mut p = packed(b"a=1\nb=2\nc=3");
    dc_param_set(&mut p, 'b' as i32, Some(b"new_value"));
    assert_eq!(p.packed, b"a=1\nb=new_value\nc=3".to_vec());
    dc_param_set(&mut p, 'a' as i32, Some(b""));
    assert_eq!(p.packed, b"a=\nb=new_value\nc=3".to_vec());
    dc_param_set(&mut p, 'c' as i32, Some(b"last"));
    assert_eq!(p.packed, b"a=\nb=new_value\nc=last".to_vec());
}

#[test]
fn new_key_goes_to_the_end() {
    let mut p = packed(b"a=1");
    dc_param_set(&mut p, 'z' as i32, Some(b"26"));
    assert_eq!(p.packed, b"a=1\nz=26".to_vec());
}

#[test]
fn set_trims_around_the_entry() {
    let mut p = packed(b"a=1 \t\nb=2\n  c=3");
    dc_param_set(&mut p, 'b' as i32, Some(b"x"));
    assert_eq!(p.packed, b"a=1\nb=x\nc=3".to_vec());
    let mut q = packed(b"a=1  \n\n");
    dc_param_set(&mut q, 'b' as i32, Some(b"x"));
    assert_eq!(q.packed, b"a=1\nb=x".to_vec());
}

#[test]
fn packed_buffer_reads_back() {
    let p = packed(b"a=one\nb= two \nc=\nd=4");
    assert_eq!(p.packed, b"a=one\nb= two \nc=\nd=4".to_vec());
    assert_eq!(get(&p, b'a', b"-"), b"one".to_vec());
    assert_eq!(get(&p, b'b', b"-"), b" two".to_vec());
    assert_eq!(get(&p, b'c', b"-"), b"".to_vec());
    assert_eq!(get(&p, b'd', b"-"), b"4".to_vec());
    assert_eq!(get(&p, b'e', b"-"), b"-".to_vec());
}

#[test]
fn set_packed_none_empties() {
    let mut p = packed(b"a=1");
    dc_param_set_packed(&mut p, None);
    assert_eq!(p.packed, Vec::<u8>::new());
}

#[test]
fn urlencoded_is_split_at_ampersands() {
    let mut p = dc_param_new();
    dc_param_set_urlencoded(&mut p, Some(b"a=1&b=2"));
    assert_eq!(p.packed, b"a=1\nb=2".to_vec());
    assert_eq!(get(&p, b'a', b""), b"1".to_vec());
    assert_eq!(get(&p, b'b', b""), b"2".to_vec());
    dc_param_set_urlencoded(&mut p, Some(b"a=%26&&b"));
    assert_eq!(p.packed, b"a=%26\n\nb".to_vec());
    dc_param_set_urlencoded(&mut p, None);
    assert_eq!(p.packed, Vec::<u8>::new());
}

#[test]
fn get_int_default_and_value() {
    let mut p = dc_param_new();
    assert_eq!(dc_param_get_int(&p, 'k' as i32, 5), 5);
    dc_param_set_int(&mut p, 'k' as i32, 42);
    assert_eq!(p.packed, b"k=42".to_vec());
    assert_eq!(dc_param_get_int(&p, 'k' as i32, 5), 42);
    dc_param_set_int(&mut p, 'n' as i32, -17);
    assert_eq!(p.packed, b"k=42\nn=-17".to_vec());
    assert_eq!(dc_param_get_int(&p, 'n' as i32, 5), -17);
    dc_param_set_int(&mut p, 'k' as i32, i32::MIN);
    assert_eq!(dc_param_get_int(&p, 'k' as i32, 5), i32::MIN);
    dc_param_set_int(&mut p, 'k' as i32, i32::MAX);
    assert_eq!(dc_param_get_int(&p, 'k' as i32, 5), i32::MAX);
    dc_param_set_int(&mut p, 'k' as i32, 0);
    assert_eq!(dc_param_get_int(&p, 'k' as i32, 5), 0);
}

#[test]
fn get_int_reads_leading_number() {
    let p = packed(b"a=12abc\nb=abc\nc=\nd=  -7 \ne=+3");
    assert_eq!(dc_param_get_int(&p, 'a' as i32, 9), 12);
    assert_eq!(dc_param_get_int(&p, 'b' as i32, 9), 0);
    assert_eq!(dc_param_get_int(&p, 'c' as i32, 9), 0);
    assert_eq!(dc_param_get_int(&p, 'd' as i32, 9), -7);
    assert_eq!(dc_param_get_int(&p, 'e' as i32, 9), 3);
    assert_eq!(dc_param_get_int(&p, 0, 9), 9);
}

#[test]
fn empty_value_is_not_absent() {
    let mut p = dc_param_new();
    dc_param_set(&mut p, 'a' as i32, Some(b""));
    assert_eq!(p.packed, b"a=".to_vec());
    assert!(dc_param_exists(&p, 'a' as i32));
    assert_eq!(get(&p, b'a', b"fallback"), b"".to_vec());
}

#[test]
fn key_zero_does_nothing() {
    let mut p = packed(b"a=1");
    dc_param_set(&mut p, 0, Some(b"x"));
    assert_eq!(p.packed, b"a=1".to_vec());
    dc_param_set_int(&mut p, 0, 3);
    assert_eq!(p.packed, b"a=1".to_vec());
    assert!(!dc_param_exists(&p, 0));
    assert_eq!(dc_param_get(&p, 0, Some(b"d")), Some(b"d".to_vec()));
    assert_eq!(dc_param_get(&p, 0, None), None);
}

#[test]
fn get_trims_right_only() {
    let p = packed(b"a=  padded \t \nb=x");
    assert_eq!(get(&p, b'a', b""), b"  padded".to_vec());
    let q = packed(b"a=   ");
    assert_eq!(get(&q, b'a', b"d"), b"".to_vec());
}

#[test]
fn first_of_two_entries_wins() {
    let p = packed(b"a=first\na=second");
    assert_eq!(get(&p, b'a', b""), b"first".to_vec());
}

#[test]
fn marker_counts_only_at_line_start() {
    let p = packed(b"a=xb=1\nb=2");
    assert_eq!(get(&p, b'b', b""), b"2".to_vec());
    assert_eq!(find_param(b"a=xb=1\nb=2", 'b' as i32), Some((7, 10)));
    assert_eq!(find_param(b"a=xb=1", 'b' as i32), None);
    assert_eq!(find_param(b"a", 'a' as i32), None);
    assert_eq!(find_param(b"a=", 'a' as i32), Some((0, 2)));
    assert_eq!(find_param(b"a=1\nb=2\nc=3", 'b' as i32), Some((4, 7)));
    assert_eq!(find_param(b"", 'a' as i32), None);
}

#[test]
fn wide_key_is_written_by_its_low_byte() {
    let mut p = dc_param_new();
    dc_param_set(&mut p, 0x161, Some(b"v"));
    assert_eq!(p.packed, b"a=v".to_vec());
    assert!(!dc_param_exists(&p, 0x161));
    assert!(dc_param_exists(&p, 'a' as i32));
    assert_eq!(dc_param_get(&p, 0x161, Some(b"d")), Some(b"d".to_vec()));
}

#[test]
fn empty_and_unref() {
    let mut p = packed(b"a=1\nb=2");
    dc_param_empty(&mut p);
    assert_eq!(p.packed, Vec::<u8>::new());
    assert!(!dc_param_exists(&p, 'a' as i32));
    let copy = p.clone();
    dc_param_unref(p);
    assert_eq!(copy.packed, Vec::<u8>::new());
}

#[test]
fn sets_keep_the_format() {
    let mut p = packed(b"a=1\nb=two words\nc=");
    dc_param_set(&mut p, 'd' as i32, Some(b"4"));
    dc_param_set(&mut p, 'a' as i32, Some(b"one"));
    dc_param_set(&mut p, 'c' as i32, None);
    dc_param_set_int(&mut p, 'e' as i32, -5);
    dc_param_set(&mut p, 'b' as i32, Some(b""));
    assert_eq!(p.packed, b"a=one\nb=\nd=4\ne=-5".to_vec());
    for key in [b'a', b'b', b'd', b'e'] {
        assert!(dc_param_exists(&p, key as i32));
    }
    assert!(!dc_param_exists(&p, 'c' as i32));
}

#[test]
fn value_with_line_feed_is_cut_on_read() {
    let mut p = dc_param_new();
    dc_param_set(&mut p, 'a' as i32, Some(b"x\ny=z"));
    assert_eq!(p.packed, b"a=x\ny=z".to_vec());
    assert_eq!(get(&p, b'a', b""), b"x".to_vec());
    assert_eq!(get(&p, b'y', b""), b"z".to_vec());
}
