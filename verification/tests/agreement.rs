use regex::Regex;
use semver_bump::{replace, replace_by_line, Segment, Version};

const SEGMENTS: [Segment; 3] = [Segment::Patch, Segment::Minor, Segment::Major];

/// The same replacement done with the matcher and the standard library
/// alone; `None` stands for any failure.
fn direct_replace(input: &str, segment: Segment, index: usize) -> Option<(String, Version, Version)> {
    let pattern = Regex::new(r"(\d+)\.(\d+)\.(\d+)").unwrap();
    let found = pattern.find_iter(input).nth(index)?;
    let parts: Vec<&str> = found.as_str().split(".").collect();
    if parts.len() != 3 {
        return None;
    }
    let major: u16 = parts[0].parse().ok()?;
    let minor: u16 = parts[1].parse().ok()?;
    let patch: u16 = parts[2].parse().ok()?;
    let (major_up, minor_up, patch_up) = match segment {
        Segment::Patch => (major, minor, patch.checked_add(1)?),
        Segment::Minor => (major, minor.checked_add(1)?, 0),
        Segment::Major => (major.checked_add(1)?, 0, 0),
    };
    let mut output = input.to_string();
    output.replace_range(found.range(), &format!("{}.{}.{}", major_up, minor_up, patch_up));
    Some((output, Version::new(major, minor, patch), Version::new(major_up, minor_up, patch_up)))
}

fn direct_replace_by_line(
    input: &str,
    segment: Segment,
    index: usize,
    line_index: usize,
) -> Option<(String, Version, Version)> {
    let mut lines: Vec<String> = input.split("\n").map(|line| line.to_string()).collect();
    let line = lines.get(line_index)?;
    let (new_line, version, bumped) = direct_replace(line, segment, index)?;
    lines[line_index] = new_line;
    Some((lines.join("\n"), version, bumped))
}

/// Texts put together from versions, near misses, line breaks and other
/// characters.
fn sample_texts() -> Vec<String> {
    let tokens: Vec<&str> = vec![
        "1.2.3", "10.0.65535", "65535.1.1", "0.0.0", "007.08.9", "70000.1.1", "1.\u{0662}.3",
        "1.2", "7", ".", "\n", "\n", " ", "x", "\r", "\u{e9}", "v", "-rc1",
    ];
    let mut state: u64 = 0x2545_f491_4f6c_dd1d;
    let mut texts = Vec::new();
    for length in 0..12usize {
        for _ in 0..5 {
            let mut text = String::new();
            for _ in 0..length {
                state = state.wrapping_mul(6364136223846793005).wrapping_add(1442695040888963407);
                let pick = ((state >> 33) as usize) % tokens.len();
                text.push_str(tokens[pick]);
            }
            texts.push(text);
        }
    }
    texts
}

#[test]
fn replace_agrees_with_a_direct_use_of_the_matcher() {
    let mut successes = 0;
    for text in sample_texts() {
        for segment in SEGMENTS {
            for index in 0..3u16 {
                let expected = direct_replace(&text, segment, index as usize);
                let got = replace(&text, segment, index).ok();
                assert_eq!(got, expected, "text {:?}, index {}", text, index);
                if expected.is_some() {
                    successes += 1;
                }
            }
        }
    }
    assert!(successes > 50);
}

#[test]
fn replace_by_line_agrees_with_a_direct_use_of_the_matcher() {
    let mut successes = 0;
    for text in sample_texts() {
        for segment in SEGMENTS {
            for line_index in 0..3u16 {
                for index in 0..2u16 {
                    let expected =
                        direct_replace_by_line(&text, segment, index as usize, line_index as usize);
                    let got = replace_by_line(&text, segment, index, line_index).ok();
                    assert_eq!(got, expected, "text {:?}, line {}, index {}", text, line_index, index);
                    if expected.is_some() {
                        successes += 1;
                    }
                }
            }
        }
    }
    assert!(successes > 50);
}
