use agit_selfhost::git::{
    read_packet_length, shallow_commits, validate_push_commands, GitError, PushCommands, PushNeed,
};

fn is_event_id(name: &str) -> bool {
    name.len() == 40 && name.bytes().all(|b| b.is_ascii_digit() || (b'a'..=b'f').contains(&b))
}

fn check(input: &[u8]) -> Result<(), GitError> {
    let verdicts: Vec<bool> = shallow_commits(input).iter().map(|id| is_event_id(id)).collect();
    let result = validate_push_commands(input, &verdicts);
    assert_eq!(
        in_parts(input).err().map(|e| e.message()),
        result.as_ref().err().map(|e| e.message())
    );
    result
}

fn in_parts(input: &[u8]) -> Result<(), GitError> {
    let mut commands = PushCommands::start();
    let mut at = 0;
    loop {
        match commands.next() {
            PushNeed::End => return Ok(()),
            PushNeed::Verdict(name) => commands.judge(is_event_id(&name))?,
            PushNeed::Bytes(count) => {
                let end = input.len().min(at + count);
                commands.take(&input[at..end])?;
                at = end;
            }
        }
    }
}

fn commands(atomic: bool, count: usize) -> Vec<u8> {
    let mut bytes = Vec::new();
    for i in 0..count {
        let capabilities = if i == 0 {
            if atomic {
                "\0report-status atomic"
            } else {
                "\0report-status"
            }
        } else {
            ""
        };
        let command = format!(
            "{} {} refs/heads/branch-{i}{capabilities}\n",
            "0".repeat(40),
            "a".repeat(40)
        );
        bytes.extend_from_slice(format!("{:04x}{command}", command.len() + 4).as_bytes());
    }
    bytes.extend_from_slice(b"0000");
    bytes
}

#[test]
fn multiple_ref_updates_require_atomic_negotiation() {
    assert!(check(commands(false, 1).as_slice()).is_ok());
    assert!(check(commands(true, 2).as_slice()).is_ok());
    assert!(check(commands(false, 2).as_slice()).is_err());
    assert!(check(b"0008x".as_slice()).is_err());
    let shallow = format!("shallow {}\n", "c".repeat(40));
    let prefix = format!("{:04x}{shallow}", shallow.len() + 4).into_bytes();
    let mut atomic = prefix.clone();
    atomic.extend(commands(true, 2));
    assert!(check(atomic.as_slice()).is_ok());
    let mut non_atomic = prefix;
    non_atomic.extend(commands(false, 2));
    assert!(check(non_atomic.as_slice()).is_err());
}

fn packet(content: &[u8]) -> Vec<u8> {
    let mut bytes = format!("{:04x}", content.len() + 4).into_bytes();
    bytes.extend_from_slice(content);
    bytes
}

fn refused(parts: &[&[u8]]) -> String {
    check(&parts.concat()).err().unwrap().message()
}

#[test]
fn push_commands_are_refused_with_their_reason() {
    let id = "c".repeat(40);
    let shallow = packet(format!("shallow {id}\n").as_bytes());
    let update = packet(b"old new refs/heads/x\0 atomic");
    assert_eq!(refused(&[]), "failed to fill whole buffer");
    assert_eq!(refused(&[b"000"]), "failed to fill whole buffer");
    assert_eq!(refused(&[b"000z"]), "invalid digit found in string");
    assert_eq!(refused(&[b"0003"]), "Invalid Git packet length");
    assert_eq!(refused(&[b"fff1"]), "Invalid Git packet length");
    assert_eq!(refused(&[b"0008x"]), "failed to fill whole buffer");
    assert_eq!(refused(&[&update, &shallow, b"0000"]), "Invalid shallow declaration");
    assert_eq!(
        refused(&[&packet(b"shallow a\xff"), b"0000"]),
        "invalid utf-8 sequence of 1 bytes from index 1"
    );
    assert_eq!(refused(&[&packet(b"shallow abc"), b"zzzz"]), "Invalid shallow object id");
    assert_eq!(
        refused(&[&packet(b"x\0\xff"), b"0000"]),
        "invalid utf-8 sequence of 1 bytes from index 0"
    );
    assert_eq!(refused(&[b"00\xc3\xa9"]), "invalid digit found in string");
    assert_eq!(refused(&[b"00\xff0"]), "invalid utf-8 sequence of 1 bytes from index 2");
    assert_eq!(refused(&[b"000\xc3"]), "incomplete utf-8 byte sequence from index 3");
    let many: Vec<u8> = std::iter::repeat(update.clone()).take(1025).flatten().collect();
    assert_eq!(refused(&[&many, b"0000"]), "Too many ref updates");
    let declared: Vec<u8> = std::iter::repeat(shallow.clone()).take(1025).flatten().collect();
    assert_eq!(refused(&[&declared, b"0000"]), "Invalid shallow declaration");
    assert_eq!(
        refused(&[&packet(b"a b c\0report-status"), &update, b"0000"]),
        "Multiple ref updates require git push --atomic"
    );
}

#[test]
fn push_commands_are_read_up_to_the_flush_packet() {
    let id = "c".repeat(40);
    let shallow = packet(format!("shallow {id}\n").as_bytes());
    let update = packet(b"old new refs/heads/x\0 atomic");
    let more = packet(b"old new refs/heads/y");
    let input = [shallow.as_slice(), &update, &more, b"0000PACK rest"].concat();
    assert_eq!(shallow_commits(&input), vec![id]);
    assert!(check(&input).is_ok());
    assert!(check(b"0000").is_ok());
    assert!(check(b"+000").is_ok());
    let most: Vec<u8> = std::iter::repeat(update).take(1024).flatten().collect();
    assert!(check(&[most.as_slice(), b"0000"].concat()).is_ok());
    assert_eq!(read_packet_length(b"fFf0"), Some(65520));
    assert_eq!(read_packet_length(b"+0aF"), Some(175));
    assert_eq!(read_packet_length(b"-001"), None);
}

#[test]
fn push_commands_are_read_in_parts() {
    let id = "c".repeat(40);
    let mut commands = PushCommands::start();
    assert!(matches!(commands.next(), PushNeed::Bytes(4)));
    commands.take(b"0035").unwrap();
    assert!(matches!(commands.next(), PushNeed::Bytes(49)));
    commands.take(format!("shallow {id}\n").as_bytes()).unwrap();
    assert!(matches!(commands.next(), PushNeed::Verdict(ref name) if *name == id));
    commands.judge(true).unwrap();
    commands.take(b"0004").unwrap();
    assert!(matches!(commands.next(), PushNeed::Bytes(0)));
    commands.take(b"").unwrap();
    assert!(commands.take(b"00").is_err());
    commands.take(b"0000").unwrap();
    assert!(matches!(commands.next(), PushNeed::End));
}
