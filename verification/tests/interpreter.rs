use broytari::file::{parse_lines, Directive, Line};
use broytari::run::{run, RunError, RunOutcome};
use broytari::{Phone, Phonology};

fn cv(s: &str) -> Vec<char> {
    s.chars().collect()
}

fn word_list(ws: &[&str]) -> Vec<Vec<char>> {
    ws.iter().map(|w| cv(w)).collect()
}

fn word_strings(out: &[Vec<char>]) -> Vec<String> {
    out.iter().map(|w| w.iter().collect()).collect()
}

fn parse_script(src: &str) -> Vec<Line> {
    let lines: Vec<Vec<char>> = src.lines().map(cv).collect();
    parse_lines(&lines).expect("script parses")
}

fn run_script(src: &str, stage: Option<&str>, ws: &[&str]) -> RunOutcome {
    let parsed = parse_script(src);
    run(&parsed, word_list(ws), &stage.map(cv)).expect("run succeeds")
}

fn category_strings(ph: &Phonology, name: &str) -> Option<Vec<String>> {
    ph.category_members(&cv(name))
        .map(|ms| ms.iter().map(|p| p.chars.iter().collect::<String>()).collect())
}

fn feature_strings(ph: &Phonology, name: &str) -> Option<(Vec<String>, Vec<String>)> {
    for (n, f) in &ph.features {
        if n.iter().collect::<String>() == name {
            let plus = f.plus_set.iter().map(|p| p.chars.iter().collect::<String>()).collect();
            let minus = f.minus_set.iter().map(|p| p.chars.iter().collect::<String>()).collect();
            return Some((plus, minus));
        }
    }
    None
}

#[test]
fn category_redeclaration_replaces() {
    let out = run_script(
        "%category plosive : p t k\n%category plosive : b d g",
        None,
        &[],
    );
    assert_eq!(
        category_strings(&out.phonology, "plosive"),
        Some(vec!["b".to_string(), "d".to_string(), "g".to_string()])
    );
}

#[test]
fn redeclaring_same_members_changes_nothing() {
    let once = run_script("%category plosive : p t k", None, &[]);
    let twice = run_script("%category plosive : p t k\n%category plosive : p t k", None, &[]);
    assert_eq!(
        category_strings(&once.phonology, "plosive"),
        category_strings(&twice.phonology, "plosive")
    );
    assert_eq!(once.phonology.categories.len(), twice.phonology.categories.len());
}

#[test]
fn bare_qualifier_is_a_category_reference() {
    let out = run_script(
        "%category voiced : z\n%feature voiced : +b -p\n= m : voiced",
        None,
        &[],
    );
    assert_eq!(
        category_strings(&out.phonology, "voiced"),
        Some(vec!["z".to_string(), "m".to_string()])
    );
    let (plus, minus) = feature_strings(&out.phonology, "voiced").expect("feature exists");
    assert_eq!(plus, vec!["b".to_string()]);
    assert_eq!(minus, vec!["p".to_string()]);
}

#[test]
fn bare_qualifier_without_category_is_undeclared() {
    let parsed = parse_script("%feature voiced : +b -p\n= m : voiced");
    let err = run(&parsed, Vec::new(), &None).expect_err("reference is undeclared");
    let RunError::UndeclaredReference(line, name) = err;
    assert_eq!(line, 2);
    assert_eq!(name.iter().collect::<String>(), "voiced");
}

#[test]
fn linked_correspondence_rewrites_by_position() {
    let out = run_script("%category V : a\np t k > b d g / V_V", None, &["apa"]);
    assert_eq!(word_strings(&out.words), vec!["aba".to_string()]);
    assert!(out.skipped_rules.is_empty());
}

#[test]
fn initial_anchor_fires_only_word_initially() {
    let out = run_script("t > d / #_", None, &["tak", "mat"]);
    assert_eq!(word_strings(&out.words), vec!["dak".to_string(), "mat".to_string()]);
}

#[test]
fn missing_stage_processes_whole_file() {
    let out = run_script(
        "%category plosive : p\n=# Middle\n%category plosive : b",
        Some("Old"),
        &[],
    );
    assert!(!out.stage_found);
    assert_eq!(category_strings(&out.phonology, "plosive"), Some(vec!["b".to_string()]));
}

#[test]
fn stage_stops_interpretation() {
    let out = run_script(
        "%category plosive : p\n=# Middle\n%category plosive : b",
        Some("Middle"),
        &[],
    );
    assert!(out.stage_found);
    assert_eq!(category_strings(&out.phonology, "plosive"), Some(vec!["p".to_string()]));
}

#[test]
fn stage_equals_prefix_interpretation() {
    let full = "t > d / #_\n=# Old\nd > t / #_";
    let prefix = "t > d / #_";
    let staged = run_script(full, Some("Old"), &["tak"]);
    let cut = run_script(prefix, None, &["tak"]);
    assert_eq!(word_strings(&staged.words), word_strings(&cut.words));
    assert_eq!(word_strings(&staged.words), vec!["dak".to_string()]);
}

#[test]
fn rule_application_is_deterministic() {
    let a = run_script("%category V : a\np t k > b d g / V_V", None, &["apa", "tapa"]);
    let b = run_script("%category V : a\np t k > b d g / V_V", None, &["apa", "tapa"]);
    assert_eq!(word_strings(&a.words), word_strings(&b.words));
}

#[test]
fn clear_phone_removes_every_tag() {
    let mut ph = Phonology::new();
    ph.add_category(cv("nasal"));
    ph.category_add(&cv("nasal"), Phone::new(cv("m")));
    ph.add_feature(cv("voiced"));
    ph.feature_plus(&cv("voiced"), Phone::new(cv("m")));
    ph.feature_minus(&cv("voiced"), Phone::new(cv("p")));
    ph.clear_phone(&Phone::new(cv("m")));
    assert_eq!(category_strings(&ph, "nasal"), Some(vec![]));
    let (plus, minus) = feature_strings(&ph, "voiced").expect("feature exists");
    assert_eq!(plus, Vec::<String>::new());
    assert_eq!(minus, vec!["p".to_string()]);
}

#[test]
fn feature_polarities_stay_disjoint() {
    let mut ph = Phonology::new();
    ph.add_feature(cv("voiced"));
    ph.feature_plus(&cv("voiced"), Phone::new(cv("b")));
    ph.feature_minus(&cv("voiced"), Phone::new(cv("b")));
    ph.feature_plus(&cv("voiced"), Phone::new(cv("d")));
    let (plus, minus) = feature_strings(&ph, "voiced").expect("feature exists");
    assert_eq!(plus, vec!["d".to_string()]);
    assert_eq!(minus, vec!["b".to_string()]);
    for p in &plus {
        assert!(!minus.contains(p));
    }
}

#[test]
fn category_add_keeps_first_insertion_order() {
    let mut ph = Phonology::new();
    ph.add_category(cv("c"));
    ph.category_add(&cv("c"), Phone::new(cv("p")));
    ph.category_add(&cv("c"), Phone::new(cv("t")));
    ph.category_add(&cv("c"), Phone::new(cv("p")));
    assert_eq!(
        category_strings(&ph, "c"),
        Some(vec!["p".to_string(), "t".to_string()])
    );
}

#[test]
fn colon_with_empty_body_is_a_syntax_error() {
    let lines: Vec<Vec<char>> = vec![cv("%category c :")];
    let errs = parse_lines(&lines).expect_err("empty body after colon");
    assert_eq!(errs.len(), 1);
    assert_eq!(errs[0].line, 1);
}

#[test]
fn absent_colon_means_an_empty_body() {
    let out = run_script("%category c", None, &[]);
    assert_eq!(category_strings(&out.phonology, "c"), Some(vec![]));
}

#[test]
fn syntax_errors_are_collected_for_the_whole_file() {
    let lines: Vec<Vec<char>> = "%feature f : x\n%category c : p\n%symbol ab : 'p'"
        .lines()
        .map(cv)
        .collect();
    let errs = parse_lines(&lines).expect_err("two lines are malformed");
    assert_eq!(errs.len(), 2);
    assert_eq!(errs[0].line, 1);
    assert_eq!(errs[1].line, 3);
}

#[test]
fn rule_line_without_arrow_is_a_syntax_error() {
    let lines: Vec<Vec<char>> = vec![cv("just words")];
    let errs = parse_lines(&lines).expect_err("no arrow");
    assert_eq!(errs.len(), 1);
    assert_eq!(errs[0].line, 1);
}

#[test]
fn comments_and_blank_lines_are_skipped() {
    let parsed = parse_script("// a comment\n\n%category c : p\n   ");
    assert_eq!(parsed.len(), 1);
}

#[test]
fn directive_grammar_accepts_both_keyword_forms() {
    let parsed = parse_script("%cat c1 : p\n%category c2 : t\n%feat f1 : +p\n%feature f2 : -t\n%sym s : 'p'\n%symbol z : 't'");
    assert_eq!(parsed.len(), 6);
}

#[test]
fn symbol_directive_separates_phones_and_qualifiers() {
    let parsed = parse_script("%symbol N : 'n' 'ng' +nasal -oral 0high vowel");
    match &parsed[0] {
        Line::Directive(_, Directive::Symbol(c, phones, quals)) => {
            assert_eq!(*c, 'N');
            let ps: Vec<String> =
                phones.iter().map(|p| p.chars.iter().collect::<String>()).collect();
            assert_eq!(ps, vec!["n".to_string(), "ng".to_string()]);
            assert_eq!(quals.len(), 4);
        }
        _ => panic!("expected a symbol directive"),
    }
}

#[test]
fn sound_change_parses_patterns_environments_and_specials() {
    let parsed = parse_script("p t > b d / a_a / !#x_y# / morpheme boundary");
    match &parsed[0] {
        Line::Change(_, sc) => {
            assert_eq!(sc.from.iter().collect::<String>(), "p t");
            assert_eq!(sc.to.iter().collect::<String>(), "b d");
            assert_eq!(sc.environments.len(), 2);
            let e0 = &sc.environments[0];
            assert!(!e0.exception && !e0.from_start && !e0.to_end);
            assert_eq!(e0.before.iter().collect::<String>(), "a");
            assert_eq!(e0.after.iter().collect::<String>(), "a");
            let e1 = &sc.environments[1];
            assert!(e1.exception && e1.from_start && e1.to_end);
            assert_eq!(e1.before.iter().collect::<String>(), "x");
            assert_eq!(e1.after.iter().collect::<String>(), "y");
            assert_eq!(sc.special_environments.len(), 1);
            assert_eq!(
                sc.special_environments[0].iter().collect::<String>(),
                "morpheme boundary"
            );
        }
        _ => panic!("expected a rule line"),
    }
}

#[test]
fn empty_to_deletes_the_match() {
    let out = run_script("a >", None, &["banana"]);
    assert_eq!(word_strings(&out.words), vec!["bnn".to_string()]);
}

#[test]
fn single_pass_replaces_every_match() {
    let out = run_script("a > o", None, &["banana"]);
    assert_eq!(word_strings(&out.words), vec!["bonono".to_string()]);
}

#[test]
fn anchored_insertion_fires_at_word_start() {
    let out = run_script(" > x / #_", None, &["ab", ""]);
    assert_eq!(word_strings(&out.words), vec!["xab".to_string(), "x".to_string()]);
    assert!(out.skipped_rules.is_empty());
}

#[test]
fn unanchored_insertion_is_rejected_per_rule() {
    let out = run_script(" > x\na > o", None, &["ab"]);
    assert_eq!(out.skipped_rules, vec![1]);
    assert_eq!(word_strings(&out.words), vec!["ob".to_string()]);
}

#[test]
fn missing_linked_counterpart_rejects_the_rule() {
    let out = run_script("p t > b", None, &["ata"]);
    assert_eq!(out.skipped_rules, vec![1]);
    assert_eq!(word_strings(&out.words), vec!["ata".to_string()]);
}

#[test]
fn linked_counterpart_in_range_applies() {
    let out = run_script("p t > b", None, &["apa"]);
    assert!(out.skipped_rules.is_empty());
    assert_eq!(word_strings(&out.words), vec!["aba".to_string()]);
}

#[test]
fn longest_member_wins_at_a_position() {
    let out = run_script("%category S : s sj\nS > t z", None, &["sja", "sa"]);
    assert_eq!(word_strings(&out.words), vec!["za".to_string(), "ta".to_string()]);
}

#[test]
fn exception_environment_vetoes_a_match() {
    let out = run_script("a > o / !#_", None, &["ana"]);
    assert_eq!(word_strings(&out.words), vec!["ano".to_string()]);
}

#[test]
fn final_anchor_fires_only_word_finally() {
    let out = run_script("a > o / _#", None, &["ana"]);
    assert_eq!(word_strings(&out.words), vec!["ano".to_string()]);
}

#[test]
fn material_on_both_sides_constrains_the_match() {
    let out = run_script("n > m / a_a", None, &["ana", "nana"]);
    assert_eq!(word_strings(&out.words), vec!["ama".to_string(), "nama".to_string()]);
}

#[test]
fn symbols_resolve_in_patterns() {
    let out = run_script("%symbol N : 'n' 'm'\n%symbol T : 't' 'd'\nN > T", None, &["nam"]);
    assert_eq!(word_strings(&out.words), vec!["tad".to_string()]);
}

#[test]
fn rules_resolve_names_at_application_time() {
    let out = run_script(
        "%category V : a\np > b / V_V\n%category V : u\np > b / V_V",
        None,
        &["apa", "upu"],
    );
    assert_eq!(word_strings(&out.words), vec!["aba".to_string(), "ubu".to_string()]);
}

#[test]
fn phone_declaration_parses_qualifiers() {
    let parsed = parse_script("= m : nasal +voiced -high 0round");
    match &parsed[0] {
        Line::Phone(no, p, quals) => {
            assert_eq!(*no, 1);
            assert_eq!(p.chars.iter().collect::<String>(), "m");
            assert_eq!(quals.len(), 4);
        }
        _ => panic!("expected a phone declaration"),
    }
}

#[test]
fn phone_redeclaration_clears_stale_tags() {
    let out = run_script(
        "%category nasal : m\n%category labial : m\n= m : nasal",
        None,
        &[],
    );
    assert_eq!(category_strings(&out.phonology, "nasal"), Some(vec!["m".to_string()]));
    assert_eq!(category_strings(&out.phonology, "labial"), Some(vec![]));
}

#[test]
fn symbol_table_entries_overwrite() {
    let out = run_script("%symbol N : 'n'\n%symbol N : 'm'\nN > t", None, &["nm"]);
    assert_eq!(word_strings(&out.words), vec!["nt".to_string()]);
}

#[test]
fn lines_render_for_display() {
    let parsed = parse_script("%category plosive : p t\n=# Old\n= m : nasal +voiced\np > b / a_a / !x_ / note");
    let shown: Vec<String> = parsed.iter().map(|l| l.render().iter().collect()).collect();
    assert_eq!(shown[0], "%category plosive : p t");
    assert_eq!(shown[1], "#= Old");
    assert_eq!(shown[2], "= m : nasal +voiced");
    assert_eq!(shown[3], "p -> b / note / a_a  /! _x ");
}

#[test]
fn whitespace_around_tokens_is_ignored() {
    let out = run_script("   %category   c   :   p  q  ", None, &[]);
    assert_eq!(
        category_strings(&out.phonology, "c"),
        Some(vec!["p".to_string(), "q".to_string()])
    );
}

#[test]
fn exception_clauses_do_not_anchor_an_insertion() {
    let out = run_script(" > x / !a_b", None, &["ab"]);
    assert_eq!(out.skipped_rules, vec![1]);
    assert_eq!(word_strings(&out.words), vec!["ab".to_string()]);
}
