use snowstorm::select::{Select, Switchboard, Wake};

#[test]
fn simple_select() {
    let mut board = Switchboard::new();
    let mut select = Select::new(&mut board);
    let h1 = select.handle(&mut board);
    let h1_id = h1.id();
    let h2 = select.handle(&mut board);
    let h2_id = h2.id();

    assert!(select.ready(&mut board).is_none());
    h1.trigger(&mut board);
    assert_eq!(select.ready(&mut board).map(|x| x.id()), Some(h1_id));
    h2.trigger(&mut board);
    assert_eq!(select.ready(&mut board).map(|x| x.id()), Some(h2_id));
    assert!(select.ready(&mut board).is_none());
}

#[test]
fn simple_select_reuse() {
    let mut board = Switchboard::new();
    let mut select = Select::new(&mut board);
    let h1 = select.handle(&mut board);
    let h1_id = h1.id();
    let h2 = select.handle(&mut board);
    let h2_id = h2.id();

    assert!(select.ready(&mut board).is_none());
    h1.trigger(&mut board);
    for _ in 0..1000 {
        select.ready(&mut board).map(|x| {
            assert_eq!(x.id(), h1_id);
            x.trigger(&mut board);
        });
    }
    select.ready(&mut board);
    assert!(select.ready(&mut board).is_none());
    h2.trigger(&mut board);
    for _ in 0..1000 {
        select.ready(&mut board).map(|x| {
            assert_eq!(x.id(), h2_id);
            x.trigger(&mut board);
        });
    }
}

#[test]
fn handles_have_their_own_numbers() {
    let mut board = Switchboard::new();
    let a = Select::new(&mut board);
    let b = Select::new(&mut board);
    let ids = vec![
        a.handle(&mut board).id(),
        b.handle(&mut board).id(),
        a.handle(&mut board).id(),
    ];
    assert_ne!(ids[0], ids[1]);
    assert_ne!(ids[0], ids[2]);
    assert_ne!(ids[1], ids[2]);
}

#[test]
fn latest_first_but_in_batches() {
    let mut board = Switchboard::new();
    let mut select = Select::new(&mut board);
    let h: Vec<_> = (0..4).map(|_| select.handle(&mut board)).collect();
    let id: Vec<usize> = h.iter().map(|x| x.id()).collect();
    let mut h = h.into_iter();
    for _ in 0..3 {
        assert_eq!(h.next().unwrap().trigger(&mut board), None);
    }
    assert_eq!(select.ready(&mut board).map(|x| x.id()), Some(id[2]));
    assert_eq!(h.next().unwrap().trigger(&mut board), None);
    assert_eq!(select.ready(&mut board).map(|x| x.id()), Some(id[1]));
    assert_eq!(select.ready(&mut board).map(|x| x.id()), Some(id[0]));
    assert_eq!(select.ready(&mut board).map(|x| x.id()), Some(id[3]));
    assert!(select.ready(&mut board).is_none());
}

#[test]
fn a_sleeper_is_woken_once() {
    let mut board = Switchboard::new();
    let mut select = Select::new(&mut board);
    let h1 = select.handle(&mut board);
    let h2 = select.handle(&mut board);
    assert!(select.next(&mut board, 7).is_none());
    assert_eq!(h1.trigger(&mut board), Some(7));
    assert_eq!(h2.trigger(&mut board), None);
    assert!(select.next(&mut board, 7).is_some());
    assert_eq!(select.on_ready(&mut board, Wake::thread(8)), Some(8));
    assert!(select.ready(&mut board).is_some());
    assert_eq!(select.on_ready(&mut board, Wake::thread(9)), None);
    let h3 = select.handle(&mut board);
    assert_eq!(h3.trigger(&mut board), Some(9));
}

#[test]
fn one_select_wakes_another() {
    let mut board = Switchboard::new();
    let mut a = Select::new(&mut board);
    let mut b = Select::new(&mut board);
    let on_a = a.handle(&mut board);
    let a_id = on_a.id();
    let on_b = b.handle(&mut board);
    let b_id = on_b.id();
    assert_eq!(a.on_ready(&mut board, Wake::Select(on_b)), None);
    assert_eq!(b.on_ready(&mut board, Wake::thread(3)), None);
    assert_eq!(on_a.trigger(&mut board), Some(3));
    assert_eq!(a.ready(&mut board).map(|x| x.id()), Some(a_id));
    assert_eq!(b.ready(&mut board).map(|x| x.id()), Some(b_id));
}

#[test]
fn selects_that_wake_each_other_come_to_rest() {
    let mut board = Switchboard::new();
    let mut a = Select::new(&mut board);
    let mut b = Select::new(&mut board);
    let a1 = a.handle(&mut board);
    let a2 = a.handle(&mut board);
    let (a1_id, a2_id) = (a1.id(), a2.id());
    let b1 = b.handle(&mut board);
    let b1_id = b1.id();
    assert_eq!(a.on_ready(&mut board, Wake::Select(b1)), None);
    assert_eq!(b.on_ready(&mut board, Wake::Select(a2)), None);
    assert_eq!(Wake::Select(a1).trigger(&mut board), None);
    assert_eq!(a.ready(&mut board).map(|x| x.id()), Some(a2_id));
    assert_eq!(a.ready(&mut board).map(|x| x.id()), Some(a1_id));
    assert!(a.ready(&mut board).is_none());
    assert_eq!(b.ready(&mut board).map(|x| x.id()), Some(b1_id));
    assert!(b.ready(&mut board).is_none());
}

#[test]
fn triggers_come_back_once() {
    let mut board = Switchboard::new();
    let mut a = Select::new(&mut board);
    let mut b = Select::new(&mut board);
    let h: Vec<_> = (0..6).map(|_| a.handle(&mut board)).collect();
    let mut expected: Vec<usize> = h.iter().map(|x| x.id()).collect();
    let relay = a.handle(&mut board);
    expected.push(relay.id());
    let on_b = b.handle(&mut board);
    let b_id = on_b.id();
    assert_eq!(b.on_ready(&mut board, Wake::Select(relay)), None);
    let mut back = Vec::new();
    for (i, x) in h.into_iter().enumerate() {
        x.trigger(&mut board);
        if i % 2 == 1 {
            back.push(a.ready(&mut board).unwrap().id());
        }
    }
    assert_eq!(on_b.trigger(&mut board), None);
    while let Some(x) = a.ready(&mut board) {
        back.push(x.id());
    }
    back.sort();
    expected.sort();
    assert_eq!(back, expected);
    assert_eq!(b.ready(&mut board).map(|x| x.id()), Some(b_id));
    assert!(b.ready(&mut board).is_none());
}

#[test]
fn a_closed_select_makes_room() {
    let mut board = Switchboard::new();
    let a = Select::new(&mut board);
    let listed = a.handle(&mut board);
    let stale = a.handle(&mut board);
    assert_eq!(listed.trigger(&mut board), None);
    a.close(&mut board);
    let mut b = Select::new(&mut board);
    assert!(b.ready(&mut board).is_none());
    assert_eq!(stale.trigger(&mut board), None);
    assert!(b.ready(&mut board).is_none());
    let h = b.handle(&mut board);
    let id = h.id();
    assert_eq!(h.trigger(&mut board), None);
    assert_eq!(b.ready(&mut board).map(|x| x.id()), Some(id));
}

#[test]
fn whoever_sleeps_on_a_closed_select_is_woken() {
    let mut board = Switchboard::new();
    let mut a = Select::new(&mut board);
    let h1 = a.handle(&mut board);
    let h2 = a.handle(&mut board);
    assert_eq!(a.on_ready(&mut board, Wake::thread(4)), None);
    a.close(&mut board);
    let mut b = Select::new(&mut board);
    assert_eq!(h1.trigger(&mut board), Some(4));
    assert_eq!(h2.trigger(&mut board), None);
    assert!(b.ready(&mut board).is_none());
}
