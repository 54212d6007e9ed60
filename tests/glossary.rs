use ticker_args::choice::ChoiceFlag;
use ticker_args::glossary::{
    bare_option_name, option_shaped, probe, ChoiceGlossary, Glossary, MockGlossary,
};

#[test]
fn test_is_choice() {
    let glossary = MockGlossary::new();
    assert_eq!(glossary.is_choice("--hlpe", &glossary.help), false);
    assert_eq!(glossary.is_choice("--hel", &glossary.help), true);
    assert_eq!(glossary.is_choice("-h", &glossary.help), true);
    assert_eq!(glossary.is_choice("-he", &glossary.help), false);
}

#[test]
fn test_search() {
    let glossary = MockGlossary::new();
    assert_eq!(glossary.search("--ver").len(), 2);
    assert_eq!(glossary.search("--h").len(), 1);
    assert_eq!(glossary.search("--n").len(), 0);
}

#[test]
fn unique_long_prefix_resolves_to_help() {
    let glossary = MockGlossary::new();
    assert_eq!(glossary.search("--hel"), vec!["help"]);
    assert!(glossary.is_choice("--hel", &glossary.help));
    assert!(!glossary.is_choice("--hel", &glossary.verbose));
    assert!(!glossary.is_choice("--hel", &glossary.version));
}

#[test]
fn ambiguous_prefix_lists_candidates_in_catalog_order() {
    let glossary = MockGlossary::new();
    assert_eq!(glossary.search("--v"), vec!["verbose", "version"]);
    let choice = ChoiceGlossary::new();
    assert_eq!(choice.search("--ver"), vec!["verbose", "version"]);
    assert_eq!(choice.search("--o"), vec!["offline"]);
}

#[test]
fn short_form_resolves_to_help() {
    let glossary = MockGlossary::new();
    assert_eq!(glossary.search("-h"), vec!["help"]);
    assert!(glossary.is_choice("-h", &glossary.help));
}

#[test]
fn two_character_short_form_matches_nothing() {
    let glossary = MockGlossary::new();
    assert!(glossary.search("-he").is_empty());
    assert!(!glossary.is_choice("-he", &glossary.help));
}

#[test]
fn unique_prefix_of_each_entry_finds_it_alone() {
    let choice = ChoiceGlossary::new();
    assert_eq!(choice.search("--h"), vec!["help"]);
    assert_eq!(choice.search("--no"), vec!["nocache"]);
    assert_eq!(choice.search("--of"), vec!["offline"]);
    assert_eq!(choice.search("--qui"), vec!["quiet"]);
    assert_eq!(choice.search("--verb"), vec!["verbose"]);
    assert_eq!(choice.search("--versio"), vec!["version"]);
}

#[test]
fn prefix_matching_nothing_finds_nothing() {
    let choice = ChoiceGlossary::new();
    assert!(choice.search("--x").is_empty());
    assert!(choice.search("--helpx").is_empty());
    assert!(choice.search("--Help").is_empty());
    assert!(choice.search("--a").is_empty());
    assert!(choice.search("--z").is_empty());
}

#[test]
fn short_form_held_by_one_entry_finds_it() {
    let choice = ChoiceGlossary::new();
    assert_eq!(choice.search("-h"), vec!["help"]);
    assert_eq!(choice.search("-n"), vec!["nocache"]);
    assert_eq!(choice.search("-o"), vec!["offline"]);
    assert_eq!(choice.search("-q"), vec!["quiet"]);
    assert_eq!(choice.search("-v"), vec!["verbose"]);
    assert!(choice.search("-x").is_empty());
}

#[test]
fn short_form_out_of_catalog_order_is_missed() {
    // The catalog is sorted by long name; 'V' sorts before every lower-case
    // short form, so the binary search steers away from `version`.
    let choice = ChoiceGlossary::new();
    assert!(choice.search("-V").is_empty());
}

#[test]
fn malformed_dash_tokens_match_nothing() {
    let choice = ChoiceGlossary::new();
    for token in ["-", "--", "---x", "---help", "---"] {
        assert!(choice.search(token).is_empty(), "{}", token);
        assert!(probe(token).is_none(), "{}", token);
        assert!(!option_shaped(token), "{}", token);
        assert!(!choice.is_choice(token, &choice.help), "{}", token);
        assert!(!choice.is_choice(token, &choice.verbose), "{}", token);
        assert!(!choice.is_choice(token, &choice.version), "{}", token);
    }
}

#[test]
fn bisect_search_reports_range_ends() {
    let glossary = MockGlossary::new();
    let ver = ChoiceFlag {
        short: '\0',
        long: String::from("ver"),
    };
    assert_eq!(glossary._bisect_search(&ver, false), 1);
    assert_eq!(glossary._bisect_search(&ver, true), 2);
    let h = ChoiceFlag {
        short: 'h',
        long: String::new(),
    };
    assert_eq!(glossary._bisect_search(&h, false), 0);
    assert_eq!(glossary._bisect_search(&h, true), 0);
    let none = ChoiceFlag {
        short: '\0',
        long: String::from("x"),
    };
    assert_eq!(glossary._bisect_search(&none, false), -1);
    assert_eq!(glossary._bisect_search(&none, true), -1);
    let empty = ChoiceFlag {
        short: '\0',
        long: String::new(),
    };
    assert_eq!(glossary._bisect_search(&empty, false), -1);
}

#[test]
fn tokens_classify_into_probes() {
    let p = probe("-h").unwrap();
    assert_eq!((p.short, p.long.as_str()), ('h', ""));
    let p = probe("--hel").unwrap();
    assert_eq!((p.short, p.long.as_str()), ('\0', "hel"));
    assert!(probe("help").is_none());
    assert!(probe("-he").is_none());
    assert!(probe("").is_none());
    assert_eq!(bare_option_name("-h"), Some("h"));
    assert_eq!(bare_option_name("--verbose"), Some("verbose"));
    assert_eq!(bare_option_name("-he"), None);
    assert_eq!(bare_option_name("appl"), None);
    assert!(option_shaped("-he"));
    assert!(option_shaped("--v"));
    assert!(!option_shaped("appl"));
}

#[test]
fn is_choice_is_case_sensitive() {
    let choice = ChoiceGlossary::new();
    assert!(!choice.is_choice("--HELP", &choice.help));
    assert!(choice.is_choice("--help", &choice.help));
    assert!(!choice.is_choice("--helpful", &choice.help));
}

#[test]
fn catalog_starts_with_switches_off() {
    let choice = ChoiceGlossary::new();
    assert!(choice.help.get_state().is_err());
    assert_eq!(choice.nocache.get_state(), Ok(false));
    assert_eq!(choice.offline.get_state(), Ok(false));
    assert_eq!(choice.quiet.get_state(), Ok(false));
    assert_eq!(choice.verbose.get_state(), Ok(false));
    assert!(choice.version.get_state().is_err());
    let names: Vec<String> = choice._glossary().iter().map(|c| c._to_flag().long).collect();
    assert_eq!(names, vec!["help", "nocache", "offline", "quiet", "verbose", "version"]);
}
