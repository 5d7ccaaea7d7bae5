use edy::term::{read_key, ByteFeed, Input, Key};

struct Feed(Vec<u8>, usize);

impl Input for Feed {
    fn byte(&mut self) -> Option<u8> {
        let b = self.0.get(self.1).copied();
        self.1 += 1;
        b
    }

    fn pending(&mut self) -> bool {
        self.1 < self.0.len()
    }
}

fn decode(bytes: &[u8]) -> Option<Key> {
    read_key(&mut Feed(bytes.to_vec(), 0))
}

#[test]
fn decodes_keys() {
    assert_eq!(decode(b"a"), Some(Key::Char('a')));
    assert_eq!(decode(&[0x06]), Some(Key::Ctrl('f')));
    assert_eq!(decode(&[0x00]), Some(Key::Ctrl(' ')));
    assert_eq!(decode(&[0x1f]), Some(Key::Ctrl('_')));
    assert_eq!(decode(&[0x0d]), Some(Key::Enter));
    assert_eq!(decode(&[0x7f]), Some(Key::Backspace));
    assert_eq!(decode(&[0x1b]), Some(Key::Esc));
    assert_eq!(decode(b"\x1bf"), Some(Key::Meta('f')));
    assert_eq!(decode(b"\x1b<"), Some(Key::Meta('<')));
    assert_eq!(decode(&[0x1b, 0x7f]), Some(Key::MetaBackspace));
    assert_eq!(decode(b"\x1b[A"), Some(Key::Up));
    assert_eq!(decode(b"\x1b[1;5C"), Some(Key::Right));
    assert_eq!(decode(b"\x1b[3~"), Some(Key::Delete));
    assert_eq!(decode(b"\x1b[5~"), Some(Key::PageUp));
    assert_eq!(decode(b"\x1bOH"), Some(Key::Home));
    assert_eq!(decode("é".as_bytes()), Some(Key::Char('é')));
    assert_eq!(decode("語".as_bytes()), Some(Key::Char('語')));
}

#[test]
fn byte_feed_decodes_keys_and_consumes_their_bytes() {
    let mut f = ByteFeed::new(b"\x1b[1;5Cx\x1bOH\xc3\xa9".to_vec());
    assert_eq!(read_key(&mut f), Some(Key::Right));
    assert_eq!(read_key(&mut f), Some(Key::Char('x')));
    assert_eq!(read_key(&mut f), Some(Key::Home));
    assert_eq!(read_key(&mut f), Some(Key::Char('é')));
    assert_eq!(read_key(&mut f), None);
    let mut g = ByteFeed::new(vec![0x1b]);
    assert_eq!(read_key(&mut g), Some(Key::Esc));
}
