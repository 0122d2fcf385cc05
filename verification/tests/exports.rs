use wordcount::arena::Arena;
use wordcount::errors::GuestError;
use wordcount::guest::{fx, reduce};

fn fresh_arena_with(input: &[u8], capacity: usize) -> (Arena, usize) {
    let mut a = Arena::new();
    let off = a.allocate(capacity);
    a.write_at(off, &input.to_vec());
    (a, off)
}

fn region_vec(a: &Arena, off: usize, len: usize) -> Vec<u8> {
    a.region(off, len).to_vec()
}

fn run_map(text: &str) -> Vec<u8> {
    let (mut a, off) = fresh_arena_with(text.as_bytes(), text.len() + 4096);
    let n = wordcount::guest::map(&mut a, off, text.len()).unwrap();
    region_vec(&a, off, n)
}

fn run_reduce(p1: &[u8], p2: &[u8]) -> Result<Vec<u8>, GuestError> {
    let mut joined = p1.to_vec();
    joined.extend_from_slice(p2);
    let (mut a, off) = fresh_arena_with(&joined, joined.len() + 4096);
    let n = reduce(&mut a, off, p1.len(), p2.len())?;
    Ok(region_vec(&a, off, n))
}

fn as_value(bytes: &[u8]) -> serde_json::Value {
    serde_json::from_slice(bytes).unwrap()
}

fn value_of(text: &str) -> serde_json::Value {
    serde_json::from_str(text).unwrap()
}

#[test]
fn allocate_returns_monotonic_offsets() {
    let mut a = Arena::new();
    let o1 = a.allocate(16);
    let o2 = a.allocate(0);
    let o3 = a.allocate(8);
    assert_eq!(o1, 0);
    assert_eq!(o2, 16);
    assert_eq!(o3, 16);
    assert_eq!(a.size(), 24);
}

#[test]
fn allocate_zeroes_the_region() {
    let mut a = Arena::new();
    let off = a.allocate(5);
    assert_eq!(a.region(off, 5), &[0u8, 0, 0, 0, 0]);
}

#[test]
fn fx_tags_hello_and_returns_26() {
    let (mut a, off) = fresh_arena_with(b"hello", 64);
    let n = fx(&mut a, off, 5).unwrap();
    assert_eq!(n, 26);
    assert_eq!(region_vec(&a, off, n), b"hello <-- Tagged from Wasm".to_vec());
}

#[test]
fn fx_is_not_idempotent() {
    let once = b"hello <-- Tagged from Wasm".to_vec();
    let (mut a, off) = fresh_arena_with(&once, 128);
    let n = fx(&mut a, off, once.len()).unwrap();
    let twice = region_vec(&a, off, n);
    assert_ne!(twice, once);
    assert_eq!(
        twice,
        b"hello <-- Tagged from Wasm <-- Tagged from Wasm".to_vec()
    );
}

#[test]
fn fx_rejects_invalid_utf8() {
    let (mut a, off) = fresh_arena_with(&[0xFF, 0xFE], 64);
    assert_eq!(fx(&mut a, off, 2), Err(GuestError::InvalidEncoding));
}

#[test]
fn fx_reports_out_of_capacity() {
    let (mut a, off) = fresh_arena_with(b"hello", 5);
    assert_eq!(fx(&mut a, off, 5), Err(GuestError::OutOfCapacity));
    assert_eq!(region_vec(&a, off, 5), b"hello".to_vec());
}

#[test]
fn map_counts_the_cat_text() {
    let out = run_map("The cat sat. The cat ran!");
    assert_eq!(
        as_value(&out),
        value_of("{\"x\":{\"the\":2,\"cat\":2,\"sat\":1,\"ran\":1}}")
    );
}

#[test]
fn map_of_empty_text_is_empty_table() {
    let out = run_map("");
    assert_eq!(out, b"{\"x\":{}}".to_vec());
}

#[test]
fn map_is_deterministic() {
    let a = run_map("Bytes in, bytes out; bytes again");
    let b = run_map("Bytes in, bytes out; bytes again");
    assert_eq!(a, b);
}

#[test]
fn map_rejects_invalid_utf8() {
    let (mut a, off) = fresh_arena_with(&[0xC3, 0x28], 64);
    assert_eq!(wordcount::guest::map(&mut a, off, 2), Err(GuestError::InvalidEncoding));
}

#[test]
fn reduce_merges_two_tables() {
    let out = run_reduce(b"{\"x\":{\"a\":1,\"b\":2}}", b"{\"x\":{\"b\":1,\"c\":3}}").unwrap();
    assert_eq!(as_value(&out), value_of("{\"x\":{\"a\":1,\"b\":3,\"c\":3}}"));
}

#[test]
fn reduce_of_empty_tables_is_empty() {
    let out = run_reduce(b"{\"x\":{}}", b"{\"x\":{}}").unwrap();
    assert_eq!(out, b"{\"x\":{}}".to_vec());
}

#[test]
fn reduce_is_commutative_on_map_outputs() {
    let pa = run_map("one fish two fish");
    let pb = run_map("red fish blue fish");
    let ab = run_reduce(&pa, &pb).unwrap();
    let ba = run_reduce(&pb, &pa).unwrap();
    assert_eq!(as_value(&ab), as_value(&ba));
}

#[test]
fn reduce_over_shards_matches_whole_text() {
    let whole = run_map("the quick fox jumps over the lazy dog ");
    let p1 = run_map("the quick fox ");
    let p2 = run_map("jumps over ");
    let p3 = run_map("the lazy dog ");
    let folded = run_reduce(&run_reduce(&p1, &p2).unwrap(), &p3).unwrap();
    assert_eq!(as_value(&folded), as_value(&whole));
    let folded_right = run_reduce(&p1, &run_reduce(&p2, &p3).unwrap()).unwrap();
    assert_eq!(as_value(&folded_right), as_value(&whole));
}

#[test]
fn reduce_rejects_malformed_payload() {
    assert_eq!(
        run_reduce(b"{\"x\":{\"a\":1}}", b"{\"y\":{}}"),
        Err(GuestError::InvalidEncoding)
    );
    assert_eq!(
        run_reduce(b"not json", b"{\"x\":{}}"),
        Err(GuestError::InvalidEncoding)
    );
}

#[test]
fn reduce_saturates_instead_of_overflowing() {
    let out = run_reduce(
        b"{\"x\":{\"a\":4294967295}}",
        b"{\"x\":{\"a\":1,\"b\":2}}",
    )
    .unwrap();
    let v = as_value(&out);
    assert_eq!(v["x"]["a"], serde_json::Value::from(4294967295u32));
    assert_eq!(v["x"]["b"], serde_json::Value::from(2u32));
}

#[test]
fn map_reports_out_of_capacity() {
    let (mut a, off) = fresh_arena_with(b"a a a a", 7);
    assert_eq!(
        wordcount::guest::map(&mut a, off, 7),
        Err(GuestError::OutOfCapacity)
    );
    assert_eq!(region_vec(&a, off, 7), b"a a a a".to_vec());
}
