use cg3::text::{is_whitespace, trimmed_string};
use cg3::{sentences_of_blocks, tokenize_tags, Block, Cohort, Error, Line, Output};

#[test]
fn test_parse() {
    println!("{}", TEST_TEXT);
    let output = Output::new(TEST_TEXT);
    for o in output.iter() {
        let o = o.unwrap();
        println!("{:?}", o);
    }
    let out = output
        .iter()
        .into_iter()
        .filter_map(Result::ok)
        .filter_map(|x| match x {
            Block::Cohort(x) => Some(x),
            _ => None,
        })
        .map(|x| x.word_form)
        .collect::<Vec<_>>();
    println!("{:?}", out);
}

#[test]
fn test_parse_round_trip() {
    let output = Output::new(TEST_TEXT);
    for line in output.iter() {
        println!("{:?}", line);
    }

    let reconstructed = output.to_string();
    assert_eq!(TEST_TEXT.trim(), reconstructed.trim());
}

#[test]
fn test_parse_round_trip_2() {
    let output = Output::new(TEST_BADJEL);
    for line in output.iter() {
        println!("{:?}", line);
    }

    let reconstructed = output.to_string();
    assert_eq!(TEST_BADJEL.trim(), reconstructed.trim());
}

#[test]
fn test_sentences() {
    let output = Output::new(TEST_BADJEL);
    for sentence in output.sentences() {
        println!("{:?}", sentence);
    }
}

#[test]
fn test_tokenize_respecting_quotes() {
    // Test case 1: NRK example
    let input = r#""NRK" N Prop Sem/Org ACR Sg Nom <W:0.0> @HNOUN #1->0 "ænn ærr koo "phon"#;
    let tokens = tokenize_tags(input);
    let expected = vec![
        r#""NRK""#,
        "N",
        "Prop",
        "Sem/Org",
        "ACR",
        "Sg",
        "Nom",
        "<W:0.0>",
        "@HNOUN",
        "#1->0",
        r#""ænn ærr koo "phon"#,
    ];
    assert_eq!(tokens, expected);

    // Test case 2: New York example
    let input = r#""New York" MWE OLang/UND N Prop Sem/Plc Sg Ill <W:0.0> @<ADVL"#;
    let tokens = tokenize_tags(input);
    let expected = vec![
        r#""New York""#,
        "MWE",
        "OLang/UND",
        "N",
        "Prop",
        "Sem/Plc",
        "Sg",
        "Ill",
        "<W:0.0>",
        "@<ADVL",
    ];
    assert_eq!(tokens, expected);

    // Test case 3: Simple case without quotes
    let input = "word N Sg Nom";
    let tokens = tokenize_tags(input);
    let expected = vec!["word", "N", "Sg", "Nom"];
    assert_eq!(tokens, expected);
}

fn cohorts(output: &Output) -> Vec<Cohort> {
    output
        .iter()
        .into_iter()
        .filter_map(Result::ok)
        .filter_map(|x| match x {
            Block::Cohort(x) => Some(x),
            _ => None,
        })
        .collect()
}

#[test]
fn nrk_line_gives_eleven_tokens() {
    let input = r#""NRK" N Prop Sem/Org ACR Sg Nom <W:0.0> @HNOUN #1->0 "ænn ærr koo "phon"#;
    let tokens = tokenize_tags(input);
    assert_eq!(tokens.len(), 11);
    assert_eq!(tokens[0], "\"NRK\"");
    assert_eq!(tokens[10], "\"ænn ærr koo \"phon");
}

#[test]
fn tokenizer_edge_cases() {
    assert!(tokenize_tags("").is_empty());
    assert!(tokenize_tags("   \t ").is_empty());
    assert_eq!(tokenize_tags("  a  b "), vec!["a", "b"]);
    assert_eq!(tokenize_tags("\"open quote"), vec!["\"open quote"]);
    assert_eq!(tokenize_tags("\"a\"b c"), vec!["\"a\"b", "c"]);
    assert_eq!(tokenize_tags("x\"y z"), vec!["x\"y", "z"]);
}

#[test]
fn depth_two_reading_stays_in_cohort() {
    let output = Output::new("\"<w>\"\n\t\"a\" N\n\t\t\"b\" V Sg\n");
    let blocks = output.iter();
    assert_eq!(blocks.len(), 1);
    let cs = cohorts(&output);
    assert_eq!(cs.len(), 1);
    assert_eq!(cs[0].word_form, "w");
    assert_eq!(cs[0].readings.len(), 2);
    assert_eq!(cs[0].readings[0].depth, 1);
    assert_eq!(cs[0].readings[0].base_form, "a");
    assert_eq!(cs[0].readings[1].depth, 2);
    assert_eq!(cs[0].readings[1].base_form, "b");
    assert_eq!(cs[0].readings[1].tags, vec!["V", "Sg"]);
    assert_eq!(cs[0].readings[1].raw_line, "\t\t\"b\" V Sg");
}

#[test]
fn consecutive_headers_give_two_cohorts() {
    let output = Output::new("\"<a>\"\n\"<b>\"\n\t\"b\" N\n");
    let cs = cohorts(&output);
    assert_eq!(cs.len(), 2);
    assert_eq!(cs[0].word_form, "a");
    assert!(cs[0].readings.is_empty());
    assert_eq!(cs[1].word_form, "b");
    assert_eq!(cs[1].readings.len(), 1);
}

#[test]
fn sentence_splits_at_clause_boundary() {
    let text = "\"<Hello>\"\n\t\"hello\" N\n: \n\"<.>\"\n\t\".\" CLB\n\"<More>\"\n\t\"more\" Adv\n";
    let output = Output::new(text);
    let sentences: Vec<String> = output.sentences().into_iter().map(|s| s.unwrap()).collect();
    assert_eq!(sentences, vec!["hello .", "more"]);
}

#[test]
fn comma_with_boundary_tag_does_not_split() {
    let text = "\"<a>\"\n\t\"a\" N\n\"<,>\"\n\t\",\" CLB\n\"<b>\"\n\t\"b\" N\n";
    let sentences: Vec<String> =
        Output::new(text).sentences().into_iter().map(|s| s.unwrap()).collect();
    assert_eq!(sentences, vec!["a,b"]);
}

#[test]
fn cohort_without_reading_contributes_word_form() {
    let sentences: Vec<String> = Output::new("\"<Word>\"\n")
        .sentences()
        .into_iter()
        .map(|s| s.unwrap())
        .collect();
    assert_eq!(sentences, vec!["Word"]);
}

#[test]
fn escaped_newline_is_expanded() {
    let output = Output::new(":a\\nb\n");
    let blocks = output.iter();
    assert!(matches!(&blocks[0], Ok(Block::Escaped(t)) if t == "a\\nb"));
    let sentences = output.sentences();
    assert_eq!(sentences.len(), 1);
    assert_eq!(sentences[0].as_ref().unwrap(), "a\nb");
}

#[test]
fn bare_base_form_is_an_invalid_reading() {
    let output = Output::new("\"<w>\"\n\tbare N Sg\n");
    let blocks = output.iter();
    assert_eq!(blocks.len(), 2);
    assert!(matches!(&blocks[0], Err(Error::InvalidReading(x)) if x == "bare N Sg"));
    assert!(matches!(&blocks[1], Ok(Block::Cohort(c)) if c.readings.is_empty()));
}

#[test]
fn reading_outside_cohort_is_invalid() {
    let output = Output::new("\t\"a\" N\n");
    let blocks = output.iter();
    assert_eq!(blocks.len(), 1);
    assert!(matches!(&blocks[0], Err(Error::InvalidReading(x)) if x == "\t\"a\" N"));
}

#[test]
fn header_without_markers_is_invalid_line() {
    let output = Output::new("\"word\"\n\t\"a\" N\nplain\n");
    let blocks = output.iter();
    assert_eq!(blocks.len(), 3);
    assert!(matches!(&blocks[0], Err(Error::InvalidLine(x)) if x == "\"word\""));
    assert!(matches!(&blocks[1], Err(Error::InvalidReading(_))));
    assert!(matches!(&blocks[2], Ok(Block::Text(t)) if t == "plain"));
    let header_closed_first = Output::new("\">\"<x\n").iter();
    assert!(matches!(&header_closed_first[0], Err(Error::InvalidLine(_))));
}

#[test]
fn errors_surface_in_sentences() {
    let output = Output::new("\"<a>\"\n\t\"a\" N\n\tbad\n\"<b>\"\n\t\"b\" N\n");
    let sentences = output.sentences();
    assert_eq!(sentences.len(), 2);
    assert!(matches!(&sentences[0], Err(Error::InvalidReading(_))));
    assert_eq!(sentences[1].as_ref().unwrap(), "ab");
}

#[test]
fn text_inside_cohort_follows_it() {
    let output = Output::new("\"<a>\"\n:x\n\t\"a\" N\n");
    let blocks = output.iter();
    assert_eq!(blocks.len(), 2);
    assert!(matches!(&blocks[0], Ok(Block::Cohort(c)) if c.readings.len() == 1));
    assert!(matches!(&blocks[1], Ok(Block::Escaped(t)) if t == "x"));
    assert_eq!(output.to_string(), "\"<a>\"\n\t\"a\" N\n:x\n");
}

#[test]
fn empty_buffer() {
    let output = Output::new("");
    assert!(output.iter().is_empty());
    assert!(output.sentences().is_empty());
    assert!(output.lines().is_empty());
    assert_eq!(output.to_string(), "");
}

#[test]
fn lines_are_classified() {
    let output = Output::new("\"<a>\"\r\n\t\"a\"\nfree\n\n:esc");
    let lines = output.lines();
    assert_eq!(lines.len(), 5);
    assert!(matches!(&lines[0], Line::WordForm(x) if x == "\"<a>\""));
    assert!(matches!(&lines[1], Line::Reading(x) if x == "\t\"a\""));
    assert!(matches!(&lines[2], Line::Text(x) if x == "free"));
    assert!(matches!(&lines[3], Line::Text(x) if x.is_empty()));
    assert!(matches!(&lines[4], Line::Text(x) if x == ":esc"));
}

#[test]
fn rendering_formats() {
    let output = Output::new("\"<w>\"\n\t\t\"b f\" A B\ntext\n: esc\n");
    let blocks = output.iter();
    assert_eq!(blocks.len(), 3);
    match &blocks[0] {
        Ok(Block::Cohort(c)) => {
            assert_eq!(c.readings[0].to_string(), "\t\t\"b f\" A B");
            assert_eq!(c.to_string(), "\"<w>\"\n\t\t\"b f\" A B\n");
        }
        _ => panic!("expected a cohort"),
    }
    assert_eq!(blocks[1].as_ref().unwrap().to_string(), "text\n");
    assert_eq!(blocks[2].as_ref().unwrap().to_string(), ": esc\n");
    assert_eq!(output.to_string(), "\"<w>\"\n\t\t\"b f\" A B\ntext\n: esc\n");
}

#[test]
fn rendering_stops_at_first_error() {
    let output = Output::new("before\n\tstray\nafter\n");
    assert_eq!(output.to_string(), "before\n");
}

#[test]
fn whitespace_matches_std() {
    for c in (0u32..=0x10FFFF).filter_map(char::from_u32) {
        assert_eq!(is_whitespace(c), c.is_whitespace(), "{:?}", c);
    }
}

#[test]
fn trimming() {
    let v: Vec<char> = "\u{3000} a b \n\t".chars().collect();
    assert_eq!(trimmed_string(&v), "a b");
    let w: Vec<char> = " \n ".chars().collect();
    assert_eq!(trimmed_string(&w), "");
}

#[test]
fn sentences_of_blocks_directly() {
    let blocks = Output::new(":a\n\"<b>\"\n\t\"b\" CLB\nskip\n:c").iter();
    let sentences: Vec<String> =
        sentences_of_blocks(&blocks).into_iter().map(|s| s.unwrap()).collect();
    assert_eq!(sentences, vec!["ab", "c"]);
}

const TEST_TEXT: &str = "\"<Wikipedia>\"
\t\"Wikipedia\" Err/Orth N Prop Sem/Org Attr <W:0.0>
\t\"Wikipedia\" Err/Orth N Prop Sem/Org Sg Acc <W:0.0>
\t\"Wikipedia\" Err/Orth N Prop Sem/Org Sg Gen <W:0.0>
\t\"Wikipedia\" Err/Orth N Prop Sem/Org Sg Nom <W:0.0>
\t\"Wikipedia\" N Prop Sem/Org Attr <W:0.0>
\t\"Wikipedia\" N Prop Sem/Org Sg Acc <W:0.0>
\t\"Wikipedia\" N Prop Sem/Org Sg Gen <W:0.0>
\t\"Wikipedia\" N Prop Sem/Org Sg Nom <W:0.0>
: 
\"<lea>\"
\t\"leat\" V IV Ind Prs Sg3 <W:0.0>
: 
\"<friddja>\"
\t\"friddja\" A Sem/Hum Attr <W:0.0>
\t\"friddja\" A Sem/Hum Sg Acc <W:0.0>
\t\"friddja\" A Sem/Hum Sg Gen <W:0.0>
\t\"friddja\" A Sem/Hum Sg Nom <W:0.0>
\t\"friddja\" Adv <W:0.0>
: 
\"<diehtosátnegirji>\"
\t\"sátnegirji\" N Sem/Txt Sg Nom <W:0.0>
\t\t\"diehtu\" N Sem/Prod-cogn_Txt Cmp/SgNom Cmp/SoftHyph Err/Orth Cmp <W:0.0>
\t\"girji\" N Sem/Txt Sg Nom <W:0.0>
\t\t\"sátni\" N Sem/Cat Cmp/SgNom Cmp <W:0.0>
\t\t\t\"diehtu\" N Sem/Prod-cogn_Txt Cmp/SgNom Cmp/SoftHyph Err/Orth Cmp <W:0.0>
\t\"sátnegirji\" N Sem/Txt Sg Nom <W:0.0>
\t\t\"dihto\" A Err/Orth Sem/Dummytag Cmp/Attr Cmp/SoftHyph Err/Orth Cmp <W:0.0>
\t\"girji\" N Sem/Txt Sg Nom <W:0.0>
\t\t\"sátni\" N Sem/Cat Cmp/SgNom Cmp <W:0.0>
\t\t\t\"dihto\" A Err/Orth Sem/Dummytag Cmp/Attr Cmp/SoftHyph Err/Orth Cmp <W:0.0>
: 
\"<badjel>\"
\t\"badjel\" Adv Sem/Plc <W:0.0>
\t\"badjel\" Adv Sem/Plc Gen <W:0.0>
\t\"badjel\" Po <W:0.0>
\t\"badjel\" Pr <W:0.0>
: 
\"<300>\"
\t\"300\" Num Arab Sg Acc <W:0.0>
\t\"300\" Num Arab Sg Gen <W:0.0>
\t\"300\" Num Arab Sg Ill Attr <W:0.0>
\t\"300\" Num Arab Sg Loc Attr <W:0.0>
\t\"300\" Num Arab Sg Nom <W:0.0>
\t\"300\" Num Sem/ID <W:0.0>
: 
\"<gielainn>\"
\t\"gielainn\" ?
\"<.>\"
\t\".\" CLB <W:0.0>
: 
";

const TEST_BADJEL: &str = r#""<sáddejuvvot>"
	"sáddet" VV TVV Der/PassL <mv> <mv> V <TH-Acc-Any><SO-Loc-Any><DE-Ill-Any> <TH-Acc-Any><DE-Ill-*Ani> IV Ind Prs Sg2 <W:0> @+FMAINV #1->1
: 
"<báhpirat>"
	"bábir" N Sem/Mat_Txt Pl Nom <W:0> @<SUBJ #2->2
: 
"<interneahta>"
	"interneahtta" N Sem/Plc-abstr Sg Gen <W:0> @>P #3->4
: 
"<badjel>"
	"badjel" Po <W:0> @<ADVL &lex-bokte-not-badjel #4->4
	"bokte" Po <W:0> @<ADVL &SUGGEST #4->4
"<.>"
	"." CLB <W:0> #5->5
:\n
"<sáddejuvvot>"
	"sáddet" VV TVV Der/PassL <mv> <mv> V <TH-Acc-Any><SO-Loc-Any><DE-Ill-Any> <TH-Acc-Any><DE-Ill-*Ani> IV Ind Prs Sg2 <W:0> @+FMAINV #1->1
: 
"<báhpirat>"
	"bábir" N Sem/Mat_Txt Pl Nom <W:0> @<SUBJ #2->2
: 
"<interneahta>"
	"interneahtta" N Sem/Plc-abstr Sg Gen <W:0> @>P #3->4
: 
"<badjel>"
	"badjel" Po <W:0> @<ADVL &lex-bokte-not-badjel #4->4
	"bokte" Po <W:0> @<ADVL &SUGGEST #4->4
"<.>"
	"." CLB <W:0> #5->5
:
"#;
