use sm::filter::OutputFilter;
use sm::term::{disable_kbd, enter_alt, reset_modes};

fn filtered(input: &[u8]) -> Vec<u8> {
    OutputFilter::new().filter(input)
}

#[test]
fn filter_passes_plain_and_sgr() {
    assert_eq!(filtered(b"hello"), b"hello".to_vec());
    // SGR color has no private intro byte -> untouched.
    assert_eq!(
        filtered(b"\x1b[31mred\x1b[0m"),
        b"\x1b[31mred\x1b[0m".to_vec()
    );
}

#[test]
fn filter_keeps_dec_private_modes() {
    // DEC private modes end in h/l and must pass (cursor, alt screen, paste).
    assert_eq!(filtered(b"\x1b[?25h"), b"\x1b[?25h".to_vec());
    assert_eq!(filtered(b"\x1b[?1049l"), b"\x1b[?1049l".to_vec());
    assert_eq!(filtered(b"\x1b[?2004h"), b"\x1b[?2004h".to_vec());
}

#[test]
fn filter_drops_kitty_keyboard() {
    assert_eq!(filtered(b"\x1b[>1u"), b"".to_vec()); // push
    assert_eq!(filtered(b"\x1b[<1u"), b"".to_vec()); // pop
    assert_eq!(filtered(b"\x1b[=5;1u"), b"".to_vec()); // set
    assert_eq!(filtered(b"\x1b[?u"), b"".to_vec()); // query
    assert_eq!(filtered(b"a\x1b[>1ub"), b"ab".to_vec()); // surrounded
}

#[test]
fn filter_drops_modify_other_keys() {
    assert_eq!(filtered(b"\x1b[>4;0m"), b"".to_vec());
    assert_eq!(filtered(b"\x1b[>4;2m"), b"".to_vec());
    // SGR (no '>') is not affected even though it ends in 'm'.
    assert_eq!(filtered(b"\x1b[1;31m"), b"\x1b[1;31m".to_vec());
}

#[test]
fn filter_handles_split_sequence() {
    let mut f = OutputFilter::new();
    let mut out = f.filter(b"x\x1b[>1");
    out.extend(f.filter(b"u y"));
    assert_eq!(out, b"x y".to_vec());
}

#[test]
fn every_cut_gives_the_same_output() {
    let input = b"a\x1b\x1b[?25h\x1b[>1;2u\x1bOP\x1b[=u\x1b[<m\x1b[>4m\x1b[1mz";
    let whole = filtered(input);
    assert_eq!(whole, b"a\x1b\x1b[?25h\x1bOP\x1b[<m\x1b[1mz".to_vec());
    for i in 0..=input.len() {
        for j in i..=input.len() {
            let mut f = OutputFilter::new();
            let mut out = f.filter(&input[..i]);
            out.extend(f.filter(&input[i..j]));
            out.extend(f.filter(&input[j..]));
            assert_eq!(out, whole);
        }
    }
}

#[test]
fn unfinished_sequences_are_held_back() {
    let mut f = OutputFilter::new();
    assert_eq!(f.filter(b"q\x1b"), b"q".to_vec());
    assert_eq!(f.filter(b"["), b"".to_vec());
    assert_eq!(f.filter(b"?12"), b"".to_vec());
    assert_eq!(f.filter(b";3h"), b"\x1b[?12;3h".to_vec());
}

#[test]
fn private_sequences_that_do_not_negotiate_pass() {
    assert_eq!(filtered(b"\x1b[<5m"), b"\x1b[<5m".to_vec());
    assert_eq!(filtered(b"\x1b[=5c"), b"\x1b[=5c".to_vec());
    assert_eq!(filtered(b"\x1b[>0\x1b\\"), b"\x1b[>0\x1b\\".to_vec());
    assert_eq!(filtered(b"\x1b[?1>2u."), b".".to_vec());
}

#[test]
fn an_escape_before_an_escape_passes() {
    assert_eq!(filtered(b"\x1b\x1b[>1u!"), b"\x1b!".to_vec());
    assert_eq!(filtered(b"\x1b\x1b\x1bx"), b"\x1b\x1b\x1bx".to_vec());
}

#[test]
fn an_escape_starts_a_new_sequence() {
    assert_eq!(filtered(b"\x1b[\x1b[>1u."), b"\x1b[.".to_vec());
    assert_eq!(filtered(b"\x1b[>1\x1b[>1uh"), b"\x1b[>1h".to_vec());
    assert_eq!(filtered(b"\x1b[\x1b[31mx"), b"\x1b[\x1b[31mx".to_vec());
    assert_eq!(filtered(b"\x1b[>1\x1b[?25h"), b"\x1b[>1\x1b[?25h".to_vec());
}

#[test]
fn what_stood_around_a_removed_sequence_is_removed_too() {
    assert_eq!(filtered(b"\x1b\x1b[>1u[>1u"), b"".to_vec());
    assert_eq!(filtered(b"\x1b[\x1b[>1u>1u"), b"".to_vec());
    assert_eq!(filtered(b"a\x1b[>4\x1b[?u;2mb"), b"ab".to_vec());
    assert_eq!(filtered(b"\x1b[\x1b[>\x1b[=1u1u<u!"), b"!".to_vec());
}

#[test]
fn a_broken_sequence_is_held_until_it_is_decided() {
    let mut f = OutputFilter::new();
    assert_eq!(f.filter(b"\x1b[\x1b["), b"".to_vec());
    assert_eq!(f.filter(b">1u"), b"".to_vec());
    assert_eq!(f.filter(b"2J"), b"\x1b[2J".to_vec());
}

/// Whether a negotiation sequence stands in `bytes`.
fn negotiates(bytes: &[u8]) -> bool {
    (0..bytes.len()).any(|i| {
        let s = &bytes[i..];
        if s.len() < 4 || s[0] != 0x1b || s[1] != b'[' || !b">=?<".contains(&s[2]) {
            return false;
        }
        match s[3..].iter().find(|b| !(0x20..=0x3f).contains(*b)) {
            Some(b'u') => true,
            Some(b'm') => s[2] == b'>',
            _ => false,
        }
    })
}

#[test]
fn nothing_leaks_out_of_short_inputs() {
    // All inputs of up to seven of the bytes that matter.
    let letters = [0x1b, b'[', b'>', b'u', b'm'];
    for len in 0..=7u32 {
        for n in 0..5usize.pow(len) {
            let input: Vec<u8> = (0..len).map(|k| letters[n / 5usize.pow(k) % 5]).collect();
            let out = filtered(&input);
            assert!(!negotiates(&out));
            if !negotiates(&input) {
                assert!(input.starts_with(&out));
            }
        }
    }
}

#[test]
fn terminal_sequences() {
    assert_eq!(enter_alt(), b"\x1b[?1049h\x1b[H");
    assert_eq!(disable_kbd(), b"\x1b[<1u\x1b[>4;0m");
    assert_eq!(
        reset_modes(),
        b"\x1b[?25h\x1b[?1049l\x1b[<1u\x1b[>4;0m\
\x1b[?1000l\x1b[?1002l\x1b[?1003l\x1b[?1006l\x1b[?2004l"
    );
    assert_eq!(filtered(disable_kbd()), Vec::<u8>::new());
    assert_eq!(filtered(enter_alt()), enter_alt().to_vec());
}
