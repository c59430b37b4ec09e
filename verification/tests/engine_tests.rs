use splitkb_core::debounce::Debouncer;
use splitkb_core::dispatch::dispatch;
use splitkb_core::dispatch::scan_tick;
use splitkb_core::dispatch::transform_local;
use splitkb_core::dispatch::transform_remote;
use splitkb_core::dispatch::DispatchQueue;
use splitkb_core::layout::check_keymap;
use splitkb_core::layout::Action;
use splitkb_core::layout::Layout;
use splitkb_core::scan::ScanSnapshot;
use splitkb_core::Event;
use splitkb_core::KEY_COUNT;

// HID usage ids for the keycodes the keymap uses.
const Q: u8 = 20;
const U: u8 = 24;
const L: u8 = 15;
const KB4: u8 = 33;
const LSHIFT: u8 = 225;

fn k(code: u8) -> Action {
    Action::Keycode(code)
}

fn sh(code: u8) -> Action {
    Action::ModChord(vec![LSHIFT, code])
}

fn l(layer: usize) -> Action {
    Action::LayerShift(layer)
}

fn t() -> Action {
    Action::Transparent
}

fn n() -> Action {
    Action::NoOp
}

/// The two-half keymap: letters on the base layer, symbols and digits on
/// the first overlay, navigation and function keys above that.
fn full_keymap() -> Vec<Vec<Action>> {
    let layer0: Vec<Action> = vec![
        // Tab Q W E R T . | . Y U I O P 0
        k(43), k(20), k(26), k(8), k(21), k(23), n(),
        n(), k(28), k(24), k(12), k(18), k(19), k(39),
        // . A S D F G Tab | . H J K L ; '
        n(), k(4), k(22), k(7), k(9), k(10), k(43),
        n(), k(11), k(13), k(14), k(15), k(51), k(52),
        // . Z X C V B Esc | Enter N M , . / Esc
        n(), k(29), k(27), k(6), k(25), k(5), k(41),
        k(40), k(17), k(16), k(54), k(55), k(56), k(41),
        // . . . LGui LShift BSpace LCtrl | RAlt Space (1) - . . .
        n(), n(), n(), k(227), k(225), k(42), k(224),
        k(230), k(44), l(1), k(45), n(), n(), n(),
    ];
    let layer1: Vec<Action> = vec![
        // t ! @ { } | . | . PgUp 7 8 9 * t
        t(), sh(30), sh(31), sh(47), sh(48), sh(49), n(),
        n(), k(75), k(36), k(37), k(38), sh(37), t(),
        // t # $ ( ) ` . | . PgDown 4 5 6 + =
        t(), sh(32), sh(33), sh(38), sh(39), k(53), n(),
        n(), k(78), k(33), k(34), k(35), sh(46), k(46),
        // t % ^ [ ] ~ . | . & 1 2 3 \ =
        t(), sh(34), sh(35), k(47), k(48), sh(53), n(),
        n(), sh(36), k(30), k(31), k(32), k(49), k(46),
        // . . . t (2) (1) t | t (1) t . . . .
        n(), n(), n(), t(), l(2), l(1), t(),
        t(), l(1), t(), n(), n(), n(), n(),
    ];
    let layer2: Vec<Action> = vec![
        n(), n(), n(), n(), n(), n(), n(),
        n(), n(), k(75), n(), n(), n(), n(),
        n(), n(), n(), k(78), n(), n(), n(),
        n(), k(80), k(81), k(82), k(79), n(), n(),
        n(), n(), n(), n(), n(), n(), n(),
        n(), n(), n(), n(), n(), n(), n(),
        n(), n(), n(), t(), t(), t(), t(),
        t(), t(), t(), t(), n(), n(), n(),
    ];
    let layer3: Vec<Action> = vec![
        n(), n(), n(), n(), n(), n(), n(),
        n(), n(), k(64), k(65), k(66), k(67), n(),
        n(), n(), n(), n(), n(), n(), n(),
        n(), n(), k(61), k(62), k(63), k(68), n(),
        n(), n(), n(), n(), n(), n(), n(),
        n(), n(), k(58), k(59), k(60), k(69), n(),
        n(), n(), n(), t(), t(), t(), t(),
        t(), t(), t(), t(), n(), n(), n(),
    ];
    vec![layer0, layer1, layer2, layer3]
}

#[test]
fn test() {
    let mut layout = Layout::new(full_keymap());

    println!("press/release O");
    layout.event(Event::Press(0, 9));
    println!("{:?}", layout.tick());
    layout.event(Event::Release(0, 9));
    println!("{:?}", layout.tick());

    println!("press (1)");
    layout.event(Event::Press(3, 9));
    println!("{:?}", layout.tick());

    println!("press/release 7");
    layout.event(Event::Press(0, 9));
    println!("{:?}", layout.tick());
    layout.event(Event::Release(0, 9));
    println!("{:?}", layout.tick());

    println!("press (2)");
    layout.event(Event::Press(3, 5));
    println!("{:?}", layout.tick());

    println!("press/release L");
    layout.event(Event::Press(1, 9));
    println!("{:?}", layout.tick());
    layout.event(Event::Release(1, 9));
    println!("{:?}", layout.tick());

    println!("release (1)");
    layout.event(Event::Release(3, 9));
    println!("{:?}", layout.tick());

    println!("press/release L");
    layout.event(Event::Press(1, 9));
    println!("{:?}", layout.tick());
    layout.event(Event::Release(1, 9));
    println!("{:?}", layout.tick());
}

#[test]
fn keymap_is_well_formed() {
    let km = full_keymap();
    assert!(check_keymap(&km));
    let mut bad = full_keymap();
    bad[0][0] = Action::LayerShift(9);
    assert!(!check_keymap(&bad));
    let mut short = full_keymap();
    short[2].pop();
    assert!(!check_keymap(&short));
}

#[test]
fn layer_overlay_takes_precedence_and_transparent_falls_through() {
    let mut layout = Layout::new(full_keymap());
    // On the base layer, (0, 9) is the letter at that position.
    layout.event(Event::Press(0, 9));
    assert_eq!(layout.tick(), vec![U]);
    layout.event(Event::Release(0, 9));
    assert_eq!(layout.tick(), vec![]);
    // With the overlay held, the same coordinate resolves on layer 1.
    layout.event(Event::Press(3, 9));
    assert_eq!(layout.tick(), vec![]);
    layout.event(Event::Press(1, 9));
    assert_eq!(layout.tick(), vec![KB4]);
    layout.event(Event::Release(1, 9));
    layout.event(Event::Release(3, 9));
    assert_eq!(layout.tick(), vec![]);
    // A transparent overlay entry falls through to the base layer: (0, 0)
    // is transparent on layer 1, so it still types the base key.
    layout.event(Event::Press(3, 9));
    layout.event(Event::Press(0, 0));
    assert_eq!(layout.tick(), vec![43]);
    layout.event(Event::Release(0, 0));
    layout.event(Event::Release(3, 9));
    assert_eq!(layout.tick(), vec![]);
}

fn holdtap_keymap() -> Vec<Vec<Action>> {
    let mut layer0: Vec<Action> = Vec::new();
    for _ in 0..KEY_COUNT {
        layer0.push(n());
    }
    layer0[0] = Action::Keycode(Q);
    // Hold for layer 1, tap for space, with a three-tick timeout.
    layer0[1] = Action::HoldTap(Box::new(l(1)), Box::new(k(44)), 3);
    // Hold for shift, tap for the letter, with a four-tick timeout.
    layer0[2] = Action::HoldTap(Box::new(k(LSHIFT)), Box::new(k(L)), 4);
    let mut layer1: Vec<Action> = Vec::new();
    for _ in 0..KEY_COUNT {
        layer1.push(t());
    }
    layer1[0] = Action::Keycode(U);
    vec![layer0, layer1]
}

#[test]
fn holdtap_quick_release_resolves_as_tap() {
    let km = holdtap_keymap();
    assert!(check_keymap(&km));
    let mut layout = Layout::new(km);
    layout.event(Event::Press(0, 2));
    // Two ticks pass, fewer than the four-tick timeout: no effect yet.
    assert_eq!(layout.tick(), vec![]);
    assert_eq!(layout.tick(), vec![]);
    layout.event(Event::Release(0, 2));
    // The tick containing the release shows the tap keycode...
    assert_eq!(layout.tick(), vec![L]);
    // ...and it is gone afterwards.
    assert_eq!(layout.tick(), vec![]);
}

#[test]
fn holdtap_held_past_timeout_resolves_as_hold() {
    let mut layout = Layout::new(holdtap_keymap());
    layout.event(Event::Press(0, 2));
    assert_eq!(layout.tick(), vec![]);
    assert_eq!(layout.tick(), vec![]);
    assert_eq!(layout.tick(), vec![]);
    // The fourth tick reaches the timeout: the hold keycode appears...
    assert_eq!(layout.tick(), vec![LSHIFT]);
    // ...and stays while held.
    assert_eq!(layout.tick(), vec![LSHIFT]);
    layout.event(Event::Release(0, 2));
    // After the release neither branch is active, and no tap is latched.
    assert_eq!(layout.tick(), vec![]);
}

#[test]
fn holdtap_layer_hold_shifts_lookups() {
    let mut layout = Layout::new(holdtap_keymap());
    layout.event(Event::Press(0, 1));
    assert_eq!(layout.tick(), vec![]);
    assert_eq!(layout.tick(), vec![]);
    // The third tick resolves the hold: layer 1 is now active.
    assert_eq!(layout.tick(), vec![]);
    layout.event(Event::Press(0, 0));
    assert_eq!(layout.tick(), vec![U]);
    layout.event(Event::Release(0, 0));
    layout.event(Event::Release(0, 1));
    // Back on the base layer, the same key types the base letter.
    layout.event(Event::Press(0, 0));
    assert_eq!(layout.tick(), vec![Q]);
    layout.event(Event::Release(0, 0));
    assert_eq!(layout.tick(), vec![]);
}

#[test]
fn debounce_short_glitch_emits_nothing() {
    let mut db = Debouncer::new(5);
    let mut pressed = ScanSnapshot::new();
    pressed.set(2, 3, true);
    let released = ScanSnapshot::new();
    // Four differing snapshots: under the threshold, no event.
    for _ in 0..4 {
        assert!(db.events(&pressed).is_empty());
    }
    // The signal goes away again: still no event, ever.
    for _ in 0..6 {
        assert!(db.events(&released).is_empty());
    }
}

#[test]
fn debounce_sustained_signal_emits_exactly_one_event() {
    let mut db = Debouncer::new(5);
    let mut pressed = ScanSnapshot::new();
    pressed.set(2, 3, true);
    for _ in 0..4 {
        assert!(db.events(&pressed).is_empty());
    }
    // The fifth identical differing reading confirms the press.
    assert_eq!(db.events(&pressed), vec![Event::Press(2, 3)]);
    // Staying pressed emits nothing further.
    for _ in 0..10 {
        assert!(db.events(&pressed).is_empty());
    }
    // Release confirms the same way.
    let released = ScanSnapshot::new();
    for _ in 0..4 {
        assert!(db.events(&released).is_empty());
    }
    assert_eq!(db.events(&released), vec![Event::Release(2, 3)]);
}

#[test]
fn debounce_events_come_in_row_major_order() {
    let mut db = Debouncer::new(2);
    let mut snap = ScanSnapshot::new();
    snap.set(3, 1, true);
    snap.set(0, 4, true);
    snap.set(1, 2, true);
    assert!(db.events(&snap).is_empty());
    assert_eq!(
        db.events(&snap),
        vec![Event::Press(0, 4), Event::Press(1, 2), Event::Press(3, 1)]
    );
}

#[test]
fn transforms_map_into_the_merged_space() {
    assert_eq!(transform_local(Event::Press(1, 0)), Event::Press(1, 6));
    assert_eq!(transform_local(Event::Release(2, 6)), Event::Release(2, 0));
    assert_eq!(transform_remote(Event::Press(1, 0)), Event::Press(1, 7));
    assert_eq!(transform_remote(Event::Release(2, 6)), Event::Release(2, 13));
}

#[test]
fn queue_is_fifo_and_overflow_is_loud() {
    let mut q = DispatchQueue::new(2);
    assert!(q.enqueue(None).is_ok());
    assert!(q.enqueue(Some(Event::Press(0, 0))).is_ok());
    // The queue is full: the next event is refused, not silently dropped.
    assert!(q.enqueue(Some(Event::Press(1, 1))).is_err());
    assert_eq!(q.dequeue(), Some(None));
    assert_eq!(q.dequeue(), Some(Some(Event::Press(0, 0))));
    assert_eq!(q.dequeue(), None);
}

#[test]
fn end_to_end_press_and_release() {
    // The merged coordinate (0, 0) is the local key at column 6, since the
    // local half's columns are mirrored into the merged space.
    let threshold: u16 = 5;
    let mut db = Debouncer::new(threshold);
    let mut km: Vec<Vec<Action>> = Vec::new();
    let mut layer0: Vec<Action> = Vec::new();
    for _ in 0..KEY_COUNT {
        layer0.push(n());
    }
    layer0[0] = Action::Keycode(Q);
    km.push(layer0);
    assert!(check_keymap(&km));
    let mut layout = Layout::new(km);
    let mut queue = DispatchQueue::new(8);
    let mut reports: Vec<Vec<u8>> = Vec::new();

    let mut run = |db: &mut Debouncer,
                   layout: &mut Layout,
                   queue: &mut DispatchQueue,
                   snap: &ScanSnapshot,
                   reports: &mut Vec<Vec<u8>>| {
        let (frame, requests) = scan_tick(db, snap);
        assert_eq!(frame[0], 128);
        queue.enqueue_all(&requests).expect("the queue never fills here");
        while let Some(req) = queue.dequeue() {
            reports.push(dispatch(layout, req));
        }
    };

    let mut pressed = ScanSnapshot::new();
    pressed.set(0, 6, true);
    let released = ScanSnapshot::new();

    for _ in 0..threshold {
        run(&mut db, &mut layout, &mut queue, &pressed, &mut reports);
    }
    // The press confirms on the fifth tick and the report shows the key.
    assert_eq!(reports.last().unwrap(), &vec![Q]);

    reports.clear();
    for _ in 0..threshold {
        run(&mut db, &mut layout, &mut queue, &released, &mut reports);
    }
    // The release confirms the same way and the report empties again.
    assert!(reports[threshold as usize - 2].contains(&Q));
    assert_eq!(reports.last().unwrap(), &Vec::<u8>::new());
}
