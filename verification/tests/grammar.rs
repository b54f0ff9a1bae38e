use lutils::mount::Blkid;
use regex::Regex;

/// The grammar as one pattern.
fn pattern() -> Regex {
    Regex::new(
        "^(.*): *(LABEL=\"(.*?)\")?.*?UUID=\"(.*?)\".*?TYPE=\"(.*?)\".*?(PARTUUID=\"(.*)\")?$",
    )
    .unwrap()
}

/// What the pattern finds in a line with a path.
fn by_pattern(re: &Regex, line: &str) -> Option<[String; 5]> {
    let caps = re.captures(line)?;
    let text = |i: usize| caps.get(i).map(|m| m.as_str().to_string()).unwrap_or_default();
    if text(1).is_empty() {
        return None;
    }
    let label = if caps.get(2).is_some() { text(3) } else { String::new() };
    let partuuid = if caps.get(6).is_some() { text(7) } else { String::new() };
    Some([text(1), label, text(4), text(5), partuuid])
}

fn by_library(line: &str) -> Option<[String; 5]> {
    match Blkid::new(line, "") {
        Ok(b) => Some([b.name, b.label, b.uuid, b.d_type, b.partuuid]),
        Err(_) => None,
    }
}

fn fields(parts: [&str; 5]) -> Option<[String; 5]> {
    Some(parts.map(|p| p.to_string()))
}

#[test]
fn label_counts_only_right_after_the_colon() {
    let line = r#"/dev/x: BLOCK_SIZE="512" LABEL="foo" UUID="u" TYPE="t""#;
    assert_eq!(by_library(line), fields(["/dev/x", "", "u", "t", ""]));
    let line = r#"/dev/x:    LABEL="foo" UUID="u" TYPE="t""#;
    assert_eq!(by_library(line), fields(["/dev/x", "foo", "u", "t", ""]));
    let line = r#"/dev/x:LABEL="foo"UUID="u"TYPE="t""#;
    assert_eq!(by_library(line), fields(["/dev/x", "foo", "u", "t", ""]));
}

#[test]
fn path_ends_at_the_last_colon_before_both_fields() {
    let line = r#"/dev/disk/by-path/pci-0000:00:1f.2-ata-1: UUID="u" TYPE="t""#;
    assert_eq!(by_library(line), fields(["/dev/disk/by-path/pci-0000:00:1f.2-ata-1", "", "u", "t", ""]));
    let line = r#"/dev/x: LABEL="a:b" UUID="u" TYPE="t""#;
    assert_eq!(by_library(line), fields([r#"/dev/x: LABEL="a"#, "", "u", "t", ""]));
    let line = r#"/dev/x: UUID="u:v" TYPE="t:w" PARTUUID="p:q""#;
    assert_eq!(by_library(line), fields(["/dev/x", "", "u:v", "t:w", "p:q"]));
}

#[test]
fn partuuid_runs_to_the_quote_that_ends_the_line() {
    let line = r#"/dev/x: UUID="u" TYPE="t" PARTUUID="p" FOO="bar""#;
    assert_eq!(by_library(line), fields(["/dev/x", "", "u", "t", r#"p" FOO="bar"#]));
    let line = r#"/dev/x: UUID="u" TYPE="t" PARTUUID="p" "#;
    assert_eq!(by_library(line), fields(["/dev/x", "", "u", "t", ""]));
    let line = r#"/dev/x: UUID="u" TYPE="t" PARTUUID=""#;
    assert_eq!(by_library(line), fields(["/dev/x", "", "u", "t", ""]));
}

#[test]
fn uuid_is_the_first_that_follows() {
    let line = r#"/dev/x: PARTUUID="p" UUID="u" TYPE="t""#;
    assert_eq!(by_library(line), fields(["/dev/x", "", "p", "t", ""]));
    let line = r#"/dev/x: UUID="a" UUID="b" TYPE="t" TYPE="z""#;
    assert_eq!(by_library(line), fields(["/dev/x", "", "a", "t", ""]));
}

#[test]
fn scanner_agrees_with_the_pattern() {
    let lines = [
        r#"/dev/mapper/openeuler-swap: UUID="75d304ca-20a0-47d2-bf29-da460789c643" BLOCK_SIZE="512  TYPE="swap""#,
        r#"/dev/nvme0n1p3: UUID="SB2XCA-H6oF-tZVR-TYkd-wVBC-Hee6-t4QUg1" TYPE="LVM2_member" PARTUUID="67426631-3f86-4de0-9d16-ca5fbd540604""#,
        r#"/dev/sda2: LABEL="系统" BLOCK_SIZE="512" UUID="F4C41C2EC41BF21A" TYPE="ntfs" PARTLABEL="Basic data partition" PARTUUID="15565c7f-ea2b-41ed-b159-fe00ad7991f0""#,
        r#"/dev/sda2: LABEL="SYS" UUID="ABC-123" TYPE="ntfs" PARTUUID="xyz""#,
        r#"/dev/sdx1: BLOCK_SIZE="512""#,
        r#"/dev/x: BLOCK_SIZE="512" LABEL="foo" UUID="u" TYPE="t""#,
        r#"/dev/x: PARTUUID="p" UUID="u" TYPE="t""#,
        r#"/dev/x: PARTUUID="p" TYPE="t""#,
        r#"/dev/x: UUID="u" TYPE="t" PARTUUID="p" FOO="bar""#,
        r#"/dev/x: UUID="u" TYPE="t" PARTUUID="p" "#,
        r#"/dev/x: UUID="u" TYPE="t" PARTUUID="p" FOO"#,
        r#"/dev/x: UUID="u" TYPE="t" PARTUUID=""#,
        r#"/dev/x: UUID="u" TYPE="t" PARTUUID="""#,
        r#"/dev/x: UUID="u" TYPE="t" PARTUUID="pu-1" PARTUUID="pu-2""#,
        r#"/dev/x: UUID="u" TYPE="t" PARTPARTUUID="z""#,
        r#"/dev/x: UUID="u" TYPE="t" XPARTUUID="z" Y="""#,
        r#"/dev/disk/by-path/pci-0000:00:1f.2-ata-1: UUID="u" TYPE="t""#,
        r#"/dev/x: LABEL="a:b" UUID="u" TYPE="t""#,
        r#"/dev/x: LABEL="a b" UUID="u" TYPE="t""#,
        r#"/dev/x: LABEL="UUID="u" TYPE="t""#,
        r#"/dev/x: LABEL="l" UUID="u" TYPE="t""#,
        r#"/dev/x: LABEL="l"#,
        r#"/dev/x: LABEL="l" UUID="u""#,
        r#"/dev/x: LABEL="x" LABEL="y" UUID="u" TYPE="t""#,
        r#"/dev/x: LABEL="" UUID="" TYPE="" PARTUUID="""#,
        r#"/dev/x:UUID="u"TYPE="t""#,
        r#"/dev/x:LABEL="l"UUID="u"TYPE="t"PARTUUID="p""#,
        r#"/dev/x:      LABEL="l" UUID="u" TYPE="t""#,
        "/dev/x:\tLABEL=\"l\" UUID=\"u\" TYPE=\"t\"",
        r#"/dev/x: TYPE="t" UUID="u""#,
        r#"/dev/x: TYPE="a" UUID="u" TYPE="t""#,
        r#"/dev/x: UUID="u" TYPE="t"#,
        r#"/dev/x: UUID="u TYPE="t""#,
        r#"/dev/x: UUID="u TYPE="t" x""#,
        r#"/dev/x: UUID="a" UUID="b" TYPE="t" TYPE="z""#,
        r#"/dev/x: UUID="u" TYPE="t": more"#,
        r#"/dev/x: UUID="u" TYPE="t": UUID="v" TYPE="w""#,
        r#"a: LABEL="l" b: UUID="u" TYPE="t""#,
        r#"a: LABEL="l" b: LABEL="m" UUID="u" TYPE="t""#,
        r#"a:: UUID="u" TYPE="t""#,
        r#":: UUID="u" TYPE="t""#,
        r#"a : UUID="u" TYPE="t""#,
        r#" : UUID="u" TYPE="t""#,
        r#"UUID="u" TYPE="t""#,
        r#"UUID="u": TYPE="t""#,
        r#"x UUID=": UUID="u" TYPE="t""#,
        r#"/dev/x: uuid="u" type="t""#,
        r#"/dev/x: UUID='u' TYPE='t'"#,
        r#"/dev/x: UUID=u TYPE=t"#,
        r#"/dev/x: UUID="u"TYPE="t"PARTUUID="p""#,
        r#"/dev/x: UUID="UUID="TYPE="TYPE=""""#,
        r#"/dev/x: UUID="TYPE="t""#,
        r#"/dev/x: UUID="TYPE="t" TYPE="s""#,
        r#"/dev/x: UUID=""TYPE="""#,
        r#"/dev/x: UUID=""""TYPE="""""#,
        "/dev/x: UUID=\"u\" TYPE=\"t\"\r",
        "/dev/x: UUID=\"u\" TYPE=\"t\" PARTUUID=\"p\"\r",
        "/dev/x: UUID=\"u\" TYPE=\"t\"\n",
        "/dev/x: UUID=\"u\"\nTYPE=\"t\"",
        "/dev/x\n: UUID=\"u\" TYPE=\"t\"",
        "\n/dev/x: UUID=\"u\" TYPE=\"t\"",
        "",
        ":",
        "a:",
        "\"",
        "no device here",
        r#"设备: LABEL="标签" UUID="编号" TYPE="类型" PARTUUID="分区""#,
    ];
    let re = pattern();
    for line in lines {
        assert_eq!(by_library(line), by_pattern(&re, line), "{:?}", line);
    }
}

#[test]
fn scanner_agrees_with_the_pattern_on_mixed_pieces() {
    let pieces = [
        "a", ":", " ", "\"", "UUID=\"", "TYPE=\"", "LABEL=\"", "PARTUUID=\"", "u\"", "x",
    ];
    // every line of up to four pieces, by counting in the base of their number
    let re = pattern();
    let n = pieces.len();
    let mut checked = 0;
    for len in 0..=4u32 {
        for code in 0..n.pow(len) {
            let mut line = String::new();
            let mut rest = code;
            for _ in 0..len {
                line.push_str(pieces[rest % n]);
                rest /= n;
            }
            assert_eq!(by_library(&line), by_pattern(&re, &line), "{:?}", line);
            checked += 1;
        }
    }
    assert_eq!(checked, 1 + 10 + 100 + 1000 + 10000);
}

#[test]
fn scanner_agrees_with_the_pattern_on_lines_with_both_fields() {
    let pieces = ["a", ":", " ", "\"", "LABEL=\"", "PARTUUID=\"", "l\"", "UUID=\"u\"", "TYPE=\"t\""];
    // every line of six pieces that holds a UUID and, after it, a type
    let re = pattern();
    let n = pieces.len();
    let mut checked = 0;
    for code in 0..n.pow(6) {
        let mut line = String::new();
        let mut rest = code;
        let mut seen = 0;
        for _ in 0..6 {
            let piece = rest % n;
            if piece == 7 && seen == 0 {
                seen = 1;
            }
            if piece == 8 && seen == 1 {
                seen = 2;
            }
            line.push_str(pieces[piece]);
            rest /= n;
        }
        if seen == 2 && code % 7 == 0 {
            assert_eq!(by_library(&line), by_pattern(&re, &line), "{:?}", line);
            checked += 1;
        }
    }
    assert!(checked > 10000);
}
