use jsonpp::chunks::transcode_chunks;
use jsonpp::pipeline::transcode;

struct Dice(u64);

impl Dice {
    fn next(&mut self) -> u64 {
        self.0 = self.0.wrapping_mul(6364136223846793005).wrapping_add(1442695040888963407);
        self.0 >> 33
    }

    fn below(&mut self, n: u64) -> u64 {
        self.next() % n
    }
}

fn reference(input: &[u8], indent: usize) -> Result<Vec<u8>, serde_json::Error> {
    let spaces = vec![b' '; indent];
    let mut reader = serde_json::Deserializer::from_slice(input);
    let formatter = serde_json::ser::PrettyFormatter::with_indent(&spaces);
    let mut writer = serde_json::Serializer::with_formatter(Vec::new(), formatter);
    serde_transcode::transcode(&mut reader, &mut writer)?;
    let mut out = writer.into_inner();
    out.push(b'\n');
    Ok(out)
}

fn blank(dice: &mut Dice, out: &mut Vec<u8>) {
    for _ in 0..dice.below(3) {
        out.push(b" \t\n\r"[dice.below(4) as usize]);
    }
}

fn string(dice: &mut Dice, out: &mut Vec<u8>) {
    out.push(b'"');
    for _ in 0..dice.below(6) {
        match dice.below(12) {
            0 => out.extend_from_slice(b"\\\""),
            1 => out.extend_from_slice(b"\\\\"),
            2 => out.extend_from_slice(b"\\/"),
            3 => out.extend_from_slice(b"\\n"),
            4 => out.extend_from_slice(format!("\\u{:04x}", dice.below(0xd800)).as_bytes()),
            5 => out.extend_from_slice(format!("\\u{:04X}", 0xe000 + dice.below(0x2000)).as_bytes()),
            6 => out.extend_from_slice(
                format!("\\u{:04x}\\u{:04x}", 0xd800 + dice.below(0x400), 0xdc00 + dice.below(0x400))
                    .as_bytes(),
            ),
            7 => out.extend_from_slice("\u{e9}\u{20ac}\u{1f600}".as_bytes()),
            8 => out.extend_from_slice(b"\\b\\f\\r\\t"),
            _ => out.push(b'a' + dice.below(26) as u8),
        }
    }
    out.push(b'"');
}

fn value(dice: &mut Dice, depth: u32, out: &mut Vec<u8>) {
    let kinds = if depth >= 6 { 5 } else { 7 };
    match dice.below(kinds) {
        0 => out.extend_from_slice(b"null"),
        1 => out.extend_from_slice(b"true"),
        2 => out.extend_from_slice(b"false"),
        3 => {
            let n = dice.below(1 << 40) as i64 - (1 << 39);
            out.extend_from_slice(n.to_string().as_bytes());
        }
        4 => string(dice, out),
        5 => {
            out.push(b'[');
            blank(dice, out);
            let count = dice.below(4);
            for i in 0..count {
                if i > 0 {
                    out.push(b',');
                }
                blank(dice, out);
                value(dice, depth + 1, out);
                blank(dice, out);
            }
            out.push(b']');
        }
        _ => {
            out.push(b'{');
            blank(dice, out);
            let count = dice.below(4);
            for i in 0..count {
                if i > 0 {
                    out.push(b',');
                }
                blank(dice, out);
                string(dice, out);
                blank(dice, out);
                out.push(b':');
                blank(dice, out);
                value(dice, depth + 1, out);
                blank(dice, out);
            }
            out.push(b'}');
        }
    }
}

fn document(dice: &mut Dice) -> Vec<u8> {
    let mut out = Vec::new();
    blank(dice, &mut out);
    value(dice, 0, &mut out);
    blank(dice, &mut out);
    out
}

fn mutate(dice: &mut Dice, doc: &mut Vec<u8>) {
    let alphabet = b"{}[],:\"\\ \n0123456789-+aetrufnls/x\x00\x1f\x7f\x80\xc3\xa9\xe2\xf0\xff";
    for _ in 0..1 + dice.below(3) {
        let byte = alphabet[dice.below(alphabet.len() as u64) as usize];
        let at = dice.below(doc.len() as u64 + 1) as usize;
        match dice.below(3) {
            0 if at < doc.len() => doc[at] = byte,
            1 if at < doc.len() => {
                doc.remove(at);
            }
            _ => doc.insert(at, byte),
        }
    }
}

/// Whether the two sides may differ on `doc` on purpose: number text is kept
/// here and rewritten there, and a number too large for a float is refused
/// there.
fn numbers_may_differ(doc: &[u8]) -> bool {
    let mut digits = 0;
    for (i, b) in doc.iter().enumerate() {
        if b.is_ascii_digit() {
            digits += 1;
            if digits > 15 {
                return true;
            }
            let after = doc.get(i + 1).copied();
            if after == Some(b'.') || after == Some(b'e') || after == Some(b'E') {
                return true;
            }
            if *b == b'0' && digits == 1 && i > 0 && doc[i - 1] == b'-' {
                return true;
            }
        } else {
            digits = 0;
        }
    }
    false
}

#[test]
fn generated_documents_come_out_as_from_serde_json() {
    let mut dice = Dice(0x5eed);
    for round in 0..4000 {
        let doc = document(&mut dice);
        let indent = (round % 5) as usize;
        let expected = reference(&doc, indent).unwrap();
        assert_eq!(
            transcode(&doc, indent).unwrap(),
            expected,
            "{:?}",
            String::from_utf8_lossy(&doc)
        );
    }
}

#[test]
fn mutated_documents_are_accepted_or_refused_as_by_serde_json() {
    let mut dice = Dice(0xfeed);
    let mut accepted = 0;
    let mut refused = 0;
    for _ in 0..20000 {
        let mut doc = document(&mut dice);
        mutate(&mut dice, &mut doc);
        if numbers_may_differ(&doc) {
            continue;
        }
        let expected = reference(&doc, 2);
        let got = transcode(&doc, 2);
        match (&expected, &got) {
            (Ok(e), Ok(g)) => {
                accepted += 1;
                assert_eq!(g, e, "{:?}", String::from_utf8_lossy(&doc));
            }
            (Err(_), Err(_)) => refused += 1,
            _ => panic!(
                "{:?}: serde_json gives {:?}, this library {:?}",
                String::from_utf8_lossy(&doc),
                expected.as_ref().map(|_| ()).map_err(|e| e.to_string()),
                got.as_ref().map(|_| ())
            ),
        }
    }
    assert!(accepted > 1000);
    assert!(refused > 1000);
}

#[test]
fn generated_documents_come_out_alike_however_they_are_cut() {
    let mut dice = Dice(0xc0ffee);
    for _ in 0..1500 {
        let mut doc = document(&mut dice);
        if dice.below(3) == 0 {
            mutate(&mut dice, &mut doc);
        }
        let whole = transcode(&doc, 2);
        let mut chunks = Vec::new();
        let mut rest = &doc[..];
        while !rest.is_empty() {
            let size = (1 + dice.below(9) as usize).min(rest.len());
            chunks.push(rest[..size].to_vec());
            rest = &rest[size..];
        }
        assert_eq!(transcode_chunks(&chunks, 2), whole, "{:?}", String::from_utf8_lossy(&doc));
    }
}
