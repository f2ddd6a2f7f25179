use sudoku::peers::peer_test;
use sudoku::PeerTable;

#[test]
fn every_cell_has_twenty_distinct_peers() {
    let t = PeerTable::new();
    for i in 0..81usize {
        let p = t.get(i);
        assert_eq!(p.len(), 20);
        for k in 0..p.len() {
            assert_ne!(p[k], i);
            for k2 in k + 1..p.len() {
                assert_ne!(p[k], p[k2]);
            }
        }
    }
}

#[test]
fn peers_of_first_cell() {
    let t = PeerTable::new();
    let p = t.get(0);
    assert_eq!(
        *p,
        vec![1, 2, 3, 4, 5, 6, 7, 8, 9, 10, 11, 18, 19, 20, 27, 36, 45, 54, 63, 72]
    );
}

#[test]
fn peer_relation() {
    assert!(peer_test(0, 8));
    assert!(peer_test(0, 72));
    assert!(peer_test(0, 20));
    assert!(!peer_test(0, 0));
    assert!(!peer_test(0, 30));
    assert!(peer_test(40, 30));
}
