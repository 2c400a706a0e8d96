use gol_rs::term::{drain_keys, Drain, Key};

#[test]
fn key_from_byte() {
    assert_eq!(Key::from_byte(b' '), Key::Space);
    assert_eq!(Key::from_byte(b'.'), Key::Step);
    assert_eq!(Key::from_byte(b'+'), Key::Faster);
    assert_eq!(Key::from_byte(b'='), Key::Faster);
    assert_eq!(Key::from_byte(b'-'), Key::Slower);
    assert_eq!(Key::from_byte(b'q'), Key::Quit);
    assert_eq!(Key::from_byte(b'R'), Key::Reseed);
    assert_eq!(Key::from_byte(b't'), Key::Theme);
    assert_eq!(Key::from_byte(b'a'), Key::Age);
    assert_eq!(Key::from_byte(b'w'), Key::Wrap);
    assert_eq!(Key::from_byte(b's'), Key::Save);
    assert_eq!(Key::from_byte(b'p'), Key::Sparkline);
    assert_eq!(Key::from_byte(b'x'), Key::Other(b'x'));
}

fn drain(polls: &[Key]) -> Option<Key> {
    let mut last = None;
    let mut i = 0;
    loop {
        let polled = polls.get(i).copied();
        i += 1;
        match drain_keys(last, polled) {
            Drain::Stop(k) => return k,
            Drain::More(k) => last = k,
        }
    }
}

#[test]
fn drain_keeps_last_and_quit_wins() {
    assert_eq!(drain(&[]), None);
    assert_eq!(drain(&[Key::Space, Key::Theme]), Some(Key::Theme));
    assert_eq!(drain(&[Key::Space, Key::Quit, Key::Theme]), Some(Key::Quit));
    assert_eq!(drain_keys(Some(Key::Age), None), Drain::Stop(Some(Key::Age)));
}
