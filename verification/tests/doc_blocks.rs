use ockam_kit::doc_blocks::{convert_blocks, CommandScope, RunType};
use regex::Regex;

#[test]
fn test_convert_block() {
    let commands = convert_blocks(
        String::from(
            r#"
<!-- bats start -->
<!--
some commands
-->
<!-- bats end -->
<!-- bash start -->
<!--
some commands 2
-->
<!-- bash end -->
    "#,
        ),
        "test_url".into(),
    );

    assert!(commands.len() == 2);
    assert_eq!(
        commands,
        vec![
            CommandScope {
                commands: "some commands".into(),
                ockam_enroll_data: "".into(),
                run_type: RunType::Bats,
                url: "test_url".into()
            },
            CommandScope {
                commands: "some commands 2".into(),
                ockam_enroll_data: "".into(),
                run_type: RunType::Unknown,
                url: "test_url".into()
            }
        ]
    )
}

#[test]
fn test_convert_block_empty() {
    let commands = convert_blocks(String::from(r#"empty"#), "url".into());
    assert!(commands.is_empty())
}

#[test]
fn test_with_markdown_content() {
    let commands = convert_blocks(
        String::from(
            r#"
# Ockam Artifacts
This repositories includes infrastructures that

<!-- bats start -->
<!--
some commands
-->
<!-- bats end -->
<!-- bash start OCKAM_HOME -->
<!--
some commands 2
-->
<!-- bash end -->
    "#,
        ),
        "test_url".into(),
    );

    assert!(commands.len() == 2);
    assert_eq!(
        commands,
        vec![
            CommandScope {
                commands: "some commands".into(),
                ockam_enroll_data: "".into(),
                run_type: RunType::Bats,
                url: "test_url".into()
            },
            CommandScope {
                commands: "some commands 2".into(),
                ockam_enroll_data: "OCKAM_HOME".into(),
                run_type: RunType::Unknown,
                url: "test_url".into()
            }
        ]
    )
}

/// A reference scanner built on the `regex` crate, with the two block patterns
/// written as regular expressions.
fn convert_blocks_with_regex(mut markdown: String, url: String) -> Vec<CommandScope> {
    let end_marker = Regex::new("<!-- (?P<run_type>.+) end -->").unwrap();
    let scrapper = Regex::new("<!-- (?P<run_type>.+) start (?P<ockam_enroll_data>.*)-->(?:.|\n)*<!--(?P<commands>(?:.|\n)+)-->(?:.|\n)*### .+ end").unwrap();
    let mut commands = vec![];
    while end_marker.is_match(markdown.as_ref()) {
        markdown = end_marker.replace(&markdown, "### $run_type end").to_string();
        for cap in scrapper.captures_iter(&markdown) {
            let run_type_name = cap.name("run_type").unwrap().as_str().trim();
            commands.push(CommandScope {
                ockam_enroll_data: cap.name("ockam_enroll_data").unwrap().as_str().trim().to_string(),
                run_type: if run_type_name == "bats" { RunType::Bats } else { RunType::Unknown },
                commands: cap.name("commands").unwrap().as_str().trim().to_string(),
                url: url.clone(),
            });
        }
        markdown = scrapper.replace(&markdown, "").to_string();
    }
    commands
}

const PIECES: [&str; 20] = [
    "<!-- ", "bats", " start ", "-->", "<!--", "\n", "### ", " end", " end -->", "x",
    " ", "OCKAM_HOME", "bash", "<!-- bats start -->\n", "<!-- bats end -->", "\n<!--\ncmd\n-->\n",
    "\t", "## end", "é", "<!-- bash start A B -->",
];

fn random_document(seed: &mut u64, pieces: usize) -> String {
    let mut doc = String::new();
    for _ in 0..pieces {
        *seed = seed.wrapping_mul(6364136223846793005).wrapping_add(1442695040888963407);
        let k = ((*seed >> 33) as usize) % PIECES.len();
        doc.push_str(PIECES[k]);
    }
    doc
}

#[test]
fn scanner_agrees_with_regex_on_generated_documents() {
    let mut seed: u64 = 7;
    for case in 0..3000 {
        let doc = random_document(&mut seed, 4 + case % 28);
        let expected = convert_blocks_with_regex(doc.clone(), "u".to_string());
        let got = convert_blocks(doc.clone(), "u".to_string());
        assert_eq!(got, expected, "document: {:?}", doc);
    }
}

#[test]
fn scanner_agrees_with_regex_on_block_documents() {
    let blocks = [
        "<!-- bats start -->\n<!--\necho 1\n-->\n<!-- bats end -->\n",
        "<!-- bash start X -->\n<!--\necho 2\n-->\n<!-- bash end -->\n",
        "<!-- bats start A B -->\n<!--\necho 3\n-->\n<!-- bats end -->\n",
        "text ### not a marker end\n",
        "<!-- bats end -->\n",
    ];
    let mut seed: u64 = 11;
    for _ in 0..500 {
        let mut doc = String::new();
        for _ in 0..4 {
            seed = seed.wrapping_mul(6364136223846793005).wrapping_add(1442695040888963407);
            doc.push_str(blocks[((seed >> 33) as usize) % blocks.len()]);
        }
        let expected = convert_blocks_with_regex(doc.clone(), "u".to_string());
        assert_eq!(convert_blocks(doc.clone(), "u".to_string()), expected, "document: {:?}", doc);
    }
}

#[test]
fn a_block_records_its_enrollment_data_and_url() {
    let doc = "<!-- bats start  CLIENT SERVER  -->\n<!--\n  ockam node list \n-->\n<!-- bats end -->";
    let commands = convert_blocks(doc.to_string(), "docs/page.md".to_string());
    assert_eq!(
        commands,
        vec![CommandScope {
            commands: "ockam node list".into(),
            ockam_enroll_data: "CLIENT SERVER".into(),
            run_type: RunType::Bats,
            url: "docs/page.md".into(),
        }]
    );
}

#[test]
fn an_end_marker_without_a_start_gives_no_block() {
    let doc = "<!-- bats end -->\nsome text\n";
    assert!(convert_blocks(doc.to_string(), "u".to_string()).is_empty());
}

#[test]
fn a_start_without_an_end_marker_gives_no_block() {
    let doc = "<!-- bats start -->\n<!--\necho\n-->\n";
    assert!(convert_blocks(doc.to_string(), "u".to_string()).is_empty());
}

#[test]
fn run_type_names() {
    assert_eq!(RunType::parse("bats"), RunType::Bats);
    assert_eq!(RunType::parse("bash"), RunType::Unknown);
    assert_eq!(RunType::parse(" bats"), RunType::Unknown);
    assert_eq!("bats".parse::<RunType>(), Ok(RunType::Bats));
    assert_eq!(RunType::default(), RunType::Unknown);
}

#[test]
fn two_documents_end_to_end_give_their_blocks_in_order() {
    let a = "# A\n<!-- bats start OCKAM_HOME -->\n<!--\nfirst\n-->\n<!-- bats end -->\ntext\n<!-- sh start -->\n<!--\nsecond\n-->\n<!-- sh end -->\n";
    let b = "# B\n<!-- bats start -->\n<!--\nthird\n-->\n<!-- bats end -->\n";
    let url = "u".to_string();
    let joined = convert_blocks(format!("{a}{b}"), url.clone());
    let mut separate = convert_blocks(a.to_string(), url.clone());
    separate.extend(convert_blocks(b.to_string(), url.clone()));
    assert_eq!(joined.len(), 3);
    assert_eq!(joined, separate);
    assert_eq!(joined[0].commands, "first");
    assert_eq!(joined[1].commands, "second");
    assert_eq!(joined[2].commands, "third");
}

#[test]
fn a_start_left_in_the_first_document_can_open_a_block_of_the_second() {
    // What the scan leaves of `a` holds `<!-- `, so the law's condition fails.
    let a = "<!-- bats start -->\n";
    let b = "<!--\ncmd\n-->\n<!-- bats end -->\n";
    let url = "u".to_string();
    assert!(convert_blocks(a.to_string(), url.clone()).is_empty());
    assert!(convert_blocks(b.to_string(), url.clone()).is_empty());
    let joined = convert_blocks(format!("{a}{b}"), url.clone());
    assert_eq!(joined.len(), 1);
    assert_eq!(joined[0].commands, "cmd");
}
