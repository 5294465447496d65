use appi::search::{filter_by_probe, rank_by_popularity, take_first, Candidate};

fn candidate(name: &[u8], version: &[u8], popularity_key: u64) -> Candidate {
    Candidate { name: name.to_vec(), version: version.to_vec(), popularity_key }
}

#[test]
fn ranking_is_by_descending_popularity() {
    let results = vec![
        candidate(b"low", b"1.0.0", 10),
        candidate(b"high", b"2.0.0", 900),
        candidate(b"mid", b"3.0.0", 40),
    ];
    let ranked = rank_by_popularity(results);
    let names: Vec<Vec<u8>> = ranked.iter().map(|c| c.name.clone()).collect();
    assert_eq!(names, vec![b"high".to_vec(), b"mid".to_vec(), b"low".to_vec()]);
}

#[test]
fn shortlist_keeps_at_most_five() {
    let results: Vec<Candidate> =
        (0u64..8).map(|k| candidate(format!("p{}", k).as_bytes(), b"1.0.0", 100 - k)).collect();
    let ranked = rank_by_popularity(results);
    let five = take_first(ranked, 5);
    assert_eq!(five.len(), 5);
    assert_eq!(five[0].name, b"p0".to_vec());
    assert_eq!(five[4].name, b"p4".to_vec());

    let short = take_first(vec![candidate(b"only", b"1.0.0", 1)], 5);
    assert_eq!(short.len(), 1);
}

#[test]
fn probe_filter_keeps_relative_order() {
    let presented = vec![
        candidate(b"first", b"1.0.0", 30),
        candidate(b"second", b"1.1.0", 20),
        candidate(b"third", b"1.2.0", 10),
    ];
    let flags = vec![true, false, true];
    let kept = filter_by_probe(presented, &flags);
    let names: Vec<Vec<u8>> = kept.iter().map(|c| c.name.clone()).collect();
    assert_eq!(names, vec![b"first".to_vec(), b"third".to_vec()]);
}

#[test]
fn probe_filter_can_empty_the_list() {
    let presented = vec![candidate(b"a", b"1.0.0", 1), candidate(b"b", b"1.0.0", 2)];
    let kept = filter_by_probe(presented, &vec![false, false]);
    assert!(kept.is_empty());
}
