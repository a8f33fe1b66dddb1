use p2p_screenshare::slot::Latest;

#[test]
fn slot_is_empty_at_first() {
    let mut s: Latest<u8> = Latest::new();
    assert_eq!(s.take(), None);
}

#[test]
fn newest_item_takes_the_place_of_the_last() {
    let mut s = Latest::new();
    s.put(1);
    s.put(2);
    s.put(3);
    assert_eq!(s.take(), Some(3));
    assert_eq!(s.take(), None);
}

#[test]
fn items_come_out_in_order_and_never_twice() {
    let mut s = Latest::new();
    let mut out = Vec::new();
    for (k, put) in [true, false, false, true, true, false, true, false].into_iter().enumerate() {
        if put {
            s.put(k);
        } else if let Some(v) = s.take() {
            out.push(v);
        }
    }
    assert_eq!(out, vec![0, 4, 6]);
}
