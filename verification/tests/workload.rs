use lsmrs::hash::hash64;
use lsmrs::resp::Reply;
use lsmrs::workload::{arg, key, read_share, scramble, skip_reply, Rng};

#[test]
fn the_generator_is_pinned() {
    let mut rng = Rng::new(1);
    assert_eq!(rng.next_u64(), 0x4082_2041);
    let mut rng = Rng::new(1);
    assert_eq!(rng.next_bits(), 0x4082_2041 >> 11);
    let mut rng = Rng::new(1);
    assert_eq!(rng.next_below(10), 0x4082_2041 % 10);
}

#[test]
fn the_generator_keeps_moving() {
    let mut rng = Rng::for_worker(0);
    let mut first = Rng::new(0x2545_F491_4F6C_DD1D ^ 0x9E37_79B9);
    for _ in 0..1000 {
        let n = rng.next_u64();
        assert_ne!(n, 0);
        assert_eq!(n, first.next_u64());
    }
    let mut stuck = Rng::new(0);
    assert_eq!(stuck.next_u64(), 0);
}

#[test]
fn keys_have_twelve_digits() {
    assert_eq!(key(0), b"user000000000000");
    assert_eq!(key(42), b"user000000000042");
    assert_eq!(key(1_234_567_890_123), b"user1234567890123");
}

#[test]
fn ranks_are_scattered_by_the_hash() {
    for rank in 0..100u64 {
        assert_eq!(scramble(rank, 1000), hash64(&rank.to_le_bytes()) % 1000);
    }
}

// A fraction of 53 bits is below the share exactly where its numerator is below
// the threshold.
#[test]
fn read_shares_are_exact() {
    for (workload, share) in [("a", 0.50), ("b", 0.95), ("c", 1.00)] {
        let threshold = read_share(workload).unwrap();
        let unit = (1u64 << 53) as f64;
        for bits in [0, threshold - 1, threshold, (1 << 53) - 1] {
            assert_eq!(bits < threshold, bits as f64 / unit < share);
        }
    }
    assert_eq!(read_share("d"), None);
}

#[test]
fn options_are_found_behind_their_names() {
    let args: Vec<String> = ["ycsb", "--ops", "7", "--addr", "x:1", "--ops", "9", "--last"]
        .iter()
        .map(|a| a.to_string())
        .collect();
    assert_eq!(arg(&args, "--ops", "1"), "7");
    assert_eq!(arg(&args, "--addr", "1"), "x:1");
    assert_eq!(arg(&args, "--none", "1"), "1");
    assert_eq!(arg(&args, "--last", "1"), "1");
}

#[test]
fn replies_are_skipped() {
    let replies = [
        Reply::Simple("OK"),
        Reply::Error("ERR nope".to_string()),
        Reply::Integer(-7),
        Reply::Nil,
        Reply::Bulk(b"a\r\nb".to_vec()),
        Reply::Array(vec![
            Reply::Bulk(vec![]),
            Reply::Array(vec![Reply::Nil, Reply::Integer(1)]),
        ]),
    ];
    let mut stream = Vec::new();
    let mut ends = Vec::new();
    for reply in &replies {
        reply.write_to(&mut stream);
        ends.push(stream.len());
    }
    let mut at = 0;
    for end in ends {
        for cut in at..end {
            assert_eq!(skip_reply(&stream[..cut], at), None);
        }
        assert_eq!(skip_reply(&stream, at), Some(end));
        at = end;
    }
}

#[test]
fn odd_replies_are_skipped_line_by_line() {
    assert_eq!(skip_reply(b"$x\r\nabc", 0), Some(4));
    assert_eq!(skip_reply(b"*x\r\nabc", 0), Some(4));
    assert_eq!(skip_reply(b"$ 2 \r\nhi\r\n", 0), Some(10));
    assert_eq!(skip_reply(b"\n", 0), Some(1));
    assert_eq!(skip_reply(b"", 0), None);
}
