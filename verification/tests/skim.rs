use ntre_demo_dumper::extract::skim::skim;

#[test]
fn finds_string_at_any_bit_offset() {
    let msg = b"\0- CTG ROUND 2 STARTED -\0";
    for shift in 0..8u32 {
        // shift the whole message left by `shift` bits, little-endian
        let mut bytes = vec![0u8; msg.len() + 1];
        let mut carry = 0u8;
        for (i, &b) in msg.iter().enumerate() {
            bytes[i] = if shift == 0 { b } else { (b << shift) | carry };
            carry = if shift == 0 { 0 } else { b >> (8 - shift) };
        }
        bytes[msg.len()] = carry;
        let mut found = Vec::new();
        skim(&bytes, &mut found);
        assert!(
            found.iter().any(|s| s == "- CTG ROUND 2 STARTED -"),
            "missed string at bit offset {shift}: {found:?}"
        );
    }
}

#[test]
fn short_runs_are_not_kept() {
    let mut found = Vec::new();
    skim(b"\0ab\0", &mut found);
    assert!(found.iter().all(|s| s != "ab"));
}
