//! Parcels, the binder driver, input probes, file watches and log lines.
use appopt::binder::{
    enter_looper, foreground_of, free_buffer, get_service, incoming_transactions,
    parse_service_handle,
    read_mapped, refresh_call_ok, reply_of, service_attempts, transaction_command, MappedRead,
    ReplyStep, Transact, Transaction, BC_ENTER_LOOPER, BC_FREE_BUFFER, BC_TRANSACTION, BINDER_TYPE_HANDLE,
    BR_DEAD_REPLY, BR_REPLY, BR_TRANSACTION, TX_ON_FG_ACTIVITIES_CHANGED,
};
use appopt::event_probe;
use appopt::event_probe::{
    event_for_touch, hex_word_of, touch_event_name, EventProbe, ProbeAction, Watched,
};
use appopt::inotify::{
    disable_inotify, event_masks, init_inotify, inotify_drain, inotify_rewatch, poll_read_gives_up,
    polled, read_gives_up, Drained, EventWalk, Polled, EAGAIN, EINTR, IN_CLOSE_WRITE,
    IN_DELETE_SELF, IN_MOVE_SELF,
};
use appopt::log_line::debug_line;
use appopt::parcel::{
    bits_of, pad4, push_i32, push_u32, push_u64, push_utf16, signed_of, u32_at, u64_at,
    ParcelReader,
};
use appopt::touch_probe;
use appopt::touch_probe::{TouchAction, TouchProbe};

#[test]
fn numbers_read_back_from_parcels() {
    let mut v: Vec<u8> = Vec::new();
    push_u32(&mut v, 0x0102_0304);
    push_u64(&mut v, 0x1122_3344_5566_7788);
    push_i32(&mut v, -2);
    assert_eq!(&v[..4], &[4, 3, 2, 1]);
    assert_eq!(u32_at(&v, 0), 0x0102_0304);
    assert_eq!(u64_at(&v, 4), 0x1122_3344_5566_7788);
    assert_eq!(signed_of(u32_at(&v, 12)), -2);
    assert_eq!(bits_of(-1), u32::MAX);
    let mut r = ParcelReader::new(&v);
    assert_eq!(r.read_i32(), Some(0x0102_0304));
    assert_eq!(r.read_u64(), Some(0x1122_3344_5566_7788));
    assert_eq!(r.read_i32(), Some(-2));
    assert_eq!(r.read_i32(), None);
}

#[test]
fn texts_read_back_from_parcels() {
    for s in ["", "a", "ab", "abc", "中文", "x😀y"] {
        let mut v: Vec<u8> = Vec::new();
        push_utf16(&mut v, s);
        assert_eq!(v.len() % 4, 0);
        push_i32(&mut v, 7);
        let mut r = ParcelReader::new(&v);
        assert_eq!(r.read_utf16_str().as_deref(), Some(s));
        assert_eq!(r.read_i32(), Some(7));
    }
}

#[test]
fn bad_texts_in_parcels() {
    let mut v: Vec<u8> = Vec::new();
    push_i32(&mut v, 1);
    v.extend_from_slice(&[0x00, 0xD8, 0, 0]);
    assert_eq!(ParcelReader::new(&v).read_utf16_str().as_deref(), Some("\u{FFFD}"));
    let mut v: Vec<u8> = Vec::new();
    push_i32(&mut v, 5);
    v.extend_from_slice(&[0x00, 0xDC, 0x34, 0xD8, 0x34, 0xD8, 0x1E, 0xDD, 0x61, 0x00, 0, 0]);
    assert_eq!(ParcelReader::new(&v).read_utf16_str().as_deref(), Some("\u{FFFD}\u{FFFD}\u{1D11E}a"));
    let mut v: Vec<u8> = Vec::new();
    push_i32(&mut v, -1);
    assert_eq!(ParcelReader::new(&v).read_utf16_str(), None);
    let mut v: Vec<u8> = Vec::new();
    push_i32(&mut v, 5000);
    assert_eq!(ParcelReader::new(&v).read_utf16_str(), None);
    let mut v: Vec<u8> = vec![1];
    pad4(&mut v);
    assert_eq!(v, vec![1, 0, 0, 0]);
}

fn answer(cmd: u32, buffer: u64, size: u64) -> Vec<u8> {
    let mut v: Vec<u8> = Vec::new();
    push_u32(&mut v, cmd);
    push_u64(&mut v, 0);
    push_u64(&mut v, 0);
    push_u32(&mut v, 2);
    push_u32(&mut v, 0);
    push_u32(&mut v, 11);
    push_u32(&mut v, 12);
    push_u64(&mut v, size);
    push_u64(&mut v, 0);
    push_u64(&mut v, buffer);
    push_u64(&mut v, 0);
    v
}

#[test]
fn commands_to_the_driver() {
    let c = transaction_command(5, 9, 0x1000, 20, 0x2000, 3);
    assert_eq!(c.len(), 68);
    assert_eq!(u32_at(&c, 0), BC_TRANSACTION);
    assert_eq!(u32_at(&c, 4), 5);
    assert_eq!(u32_at(&c, 20), 9);
    assert_eq!(u64_at(&c, 36), 20);
    assert_eq!(u64_at(&c, 44), 24);
    assert_eq!(u64_at(&c, 52), 0x1000);
    let f = free_buffer(0x33);
    assert_eq!(u32_at(&f, 0), BC_FREE_BUFFER);
    assert_eq!(u64_at(&f, 4), 0x33);
    assert_eq!(u32_at(&enter_looper(), 0), BC_ENTER_LOOPER);
}

#[test]
fn answers_may_come_in_pieces() {
    let a = answer(BR_REPLY, 0x7000, 16);
    let mut t = Transact::new();
    t.feed(&a[..30].to_vec());
    assert!(matches!(t.step(), ReplyStep::Wait));
    t.feed(&a[30..].to_vec());
    match t.step() {
        ReplyStep::Reply(r) => {
            assert_eq!(r.buffer, 0x7000);
            assert_eq!(r.data_size, 16);
            assert_eq!(r.code, 2);
        }
        _ => panic!(),
    }
    let mut t = Transact::new();
    let mut v: Vec<u8> = Vec::new();
    push_u32(&mut v, BR_DEAD_REPLY);
    t.feed(&v);
    assert!(matches!(t.step(), ReplyStep::Failed));
    assert!(!t.gives_up(1000, 3999) && t.gives_up(1000, 4000) && !t.gives_up(1000, 0));
}

#[test]
fn what_the_driver_maps() {
    assert!(matches!(read_mapped(100, 50, 0, 4), MappedRead::Nothing));
    assert!(matches!(read_mapped(100, 50, 120, 30), MappedRead::Range(120, 30)));
    assert!(matches!(read_mapped(100, 50, 120, 31), MappedRead::Outside));
    assert!(matches!(read_mapped(100, 50, 99, 1), MappedRead::Outside));
    let t = Transaction {
        target: 0,
        cookie: 0,
        code: 0,
        flags: 0,
        sender_pid: 0,
        sender_euid: 0,
        data_size: 4,
        offsets_size: 8,
        buffer: 0,
        offsets: 0,
    };
    let (data, offs) = reply_of(&t, Some(vec![1, 2, 3, 4]), Some(vec![8, 0, 0, 0, 0, 0, 0, 0])).unwrap();
    assert_eq!(data, vec![1, 2, 3, 4]);
    assert_eq!(offs, vec![8]);
    assert!(reply_of(&t, None, Some(vec![0; 8])).is_none());
}

#[test]
fn services_are_asked_for() {
    let a = service_attempts("activity");
    let codes: Vec<u32> = a.iter().map(|x| x.0).collect();
    assert_eq!(codes, vec![1, 2, 3, 4, 0x53, 0x43, 0x53]);
    assert!(a[..6].iter().all(|x| x.1 == a[0].1) && a[6].1.len() < a[0].1.len());
    let answer = |h: u8| {
        let mut b: Vec<u8> = vec![0; 20];
        b[4..8].copy_from_slice(&BINDER_TYPE_HANDLE.to_le_bytes());
        b[12] = h;
        Some(b)
    };
    assert_eq!(get_service(&vec![answer(5), None, None, None, answer(9)]), Some(5));
    assert_eq!(get_service(&vec![None, Some(vec![1, 2]), answer(9)]), Some(9));
    assert_eq!(get_service(&vec![None, Some(vec![0; 24])]), None);
    let mut v: Vec<u8> = vec![0; 24];
    assert_eq!(parse_service_handle(&v[..8].to_vec()), None);
    v.clear();
    assert_eq!(parse_service_handle(&v), None);
    assert!(refresh_call_ok(0, Some(0)) && refresh_call_ok(0, None));
    assert!(!refresh_call_ok(0, Some(-1)) && !refresh_call_ok(-1, None));
}

#[test]
fn the_foreground_is_told() {
    let mut b = answer(BR_TRANSACTION, 0x9000, 40);
    b.extend_from_slice(&answer(BR_TRANSACTION, 0xA000, 40));
    let ts = incoming_transactions(&b);
    assert_eq!(ts.len(), 2);
    assert_eq!(ts[1].buffer, 0xA000);
    assert_eq!(foreground_of(TX_ON_FG_ACTIVITIES_CHANGED + 1, &vec![0; 64]), None);
    assert_eq!(foreground_of(TX_ON_FG_ACTIVITIES_CHANGED, &vec![]), None);
}

#[test]
fn touch_screens_are_found() {
    assert_eq!(touch_event_name(3), "event3");
    assert_eq!(hex_word_of(&vec!["1", "2", "ff"], 2), 0xff);
    assert_eq!(hex_word_of(&vec!["1"], 4), 0);
    assert!(event_probe::is_touch_abs("260800000000000\n"));
    assert!(!event_probe::is_touch_abs("0"));
    assert!(!touch_probe::is_touch_abs("zz"));
    let axes = vec![None, Some(String::from("zz")), Some(String::from("3")), Some(String::from("1"))];
    assert_eq!(touch_probe::event_for_touch(&axes, true), Some((2, String::from("/dev/input/event2"))));
    assert_eq!(touch_probe::event_for_touch(&vec![None], true), Some((0, String::from("/dev/input/event0"))));
    assert_eq!(touch_probe::event_for_touch(&vec![None], false), None);
    let abs = vec![None, Some(String::from("260800000000000"))];
    assert_eq!(event_for_touch(&abs, true), Some((1, String::from("/dev/input/event1"))));
    assert_eq!(event_for_touch(&vec![None], false), None);
}

#[test]
fn ends_of_processes_are_told_once() {
    let mut w = Watched::new();
    assert!(w.watch(5, true) && !w.watch(5, false));
    w.added(5, 40);
    assert!(!w.watch(5, true));
    assert_eq!(w.ended(5), Some((5, Some(40))));
    assert!(w.watch(5, true));
}

#[test]
fn touches_pause_the_probe() {
    let mut p = EventProbe::new(true);
    assert!(p.start(true) && !p.start(false));
    p.listens(true);
    assert!(matches!(p.event(event_probe::TAG_TOUCH, 0), ProbeAction::Drain));
    let end = p.batch_end(1_000);
    assert!(end.notify && end.unlisten);
    assert!(!p.listening);
    assert_eq!(p.wait(1_000), 2000);
    assert!(!p.batch_end(2_000).notify);
    let mut t = TouchProbe::new(true, true);
    assert!(t.listening);
    assert!(matches!(t.event(touch_probe::TAG_TOUCH, 0), TouchAction::Drain));
    assert!(t.batch_end());
    assert!(!t.batch_end());
}

fn watch_event(mask: u32, name: usize) -> Vec<u8> {
    let mut v: Vec<u8> = Vec::new();
    push_i32(&mut v, 1);
    push_u32(&mut v, mask);
    push_u32(&mut v, 0);
    push_u32(&mut v, name as u32);
    v.extend(std::iter::repeat(0u8).take(name));
    v
}

#[test]
fn file_watches() {
    let mut b = watch_event(IN_CLOSE_WRITE, 16);
    b.extend_from_slice(&watch_event(IN_DELETE_SELF, 0));
    b.extend_from_slice(&[1, 2, 3]);
    assert_eq!(event_masks(&b), vec![IN_CLOSE_WRITE, IN_DELETE_SELF]);
    let (mut w, close) = init_inotify(5, Some(9));
    assert!(w.supported && w.fd == 5 && w.wd == 9);
    assert_eq!(close, None);
    assert!(!init_inotify(5, None).0.supported);
    assert!(!init_inotify(-1, None).0.supported);
    assert!(inotify_rewatch(&mut w, Some(10)).0);
    assert_eq!(w.wd, 10);
    assert_eq!(disable_inotify(&mut w), 5);
    assert!(!w.supported);
}

#[test]
fn a_replaced_file_is_a_changed_file() {
    let mut d = Drained::new();
    d.take(&watch_event(IN_MOVE_SELF, 0));
    assert!(d.reload && d.rewatch);
    assert!(inotify_drain(d, true));
    let mut d = Drained::new();
    d.take(&watch_event(IN_CLOSE_WRITE, 0));
    assert!(d.reload && !d.rewatch);
    let mut e = EventWalk::new(&watch_event(IN_DELETE_SELF, 0));
    assert!(e.advance());
    e.rewatched(true);
    assert!(!e.advance());
    assert!(e.reload);
    assert!(!read_gives_up(Some(EAGAIN)) && read_gives_up(Some(5)));
    assert!(matches!(polled(1, None), Polled::Ready));
    assert!(matches!(polled(-1, Some(EINTR)), Polled::Again));
    assert!(matches!(polled(-1, Some(5)), Polled::GiveUp));
    assert!(poll_read_gives_up(Some(5)));
}

#[test]
fn log_lines() {
    assert_eq!(debug_line(12, 345_678_901, "hello"), "[12345] hello\n");
}
