use line_relay::collatz::Collatz;

#[test]
fn sequence_from_ten() {
    let mut collatz = Collatz::new(10);
    let mut seen: Vec<u64> = Vec::new();
    while let Some(n) = collatz.next() {
        seen.push(n);
    }
    assert_eq!(seen, vec![5, 16, 8, 4, 2]);
    assert_eq!(collatz.end, 1);
}

#[test]
fn even_value_halves() {
    let mut collatz = Collatz::new(8);
    assert_eq!(collatz.next(), Some(4));
    assert_eq!(collatz.current, 4);
}

#[test]
fn odd_value_triples_plus_one() {
    let mut collatz = Collatz::new(7);
    assert_eq!(collatz.next(), Some(22));
    assert_eq!(collatz.current, 22);
}

#[test]
fn stops_at_one() {
    let mut collatz = Collatz::new(2);
    assert_eq!(collatz.next(), None);
    assert_eq!(collatz.current, 1);
}
