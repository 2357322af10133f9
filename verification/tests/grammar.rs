use std::collections::BTreeMap;

use lsystem::grammar::{symbol_ids_fit, CompiledGrammar, ExpandIter};
use lsystem::growth::max_safe_iterations;
use lsystem::ruleset::{has_stack_directives, unused_rules};

fn koch_rules() -> BTreeMap<char, String> {
    [('F', "F-F++F-F".to_string())].into()
}

fn sierpinski_rules() -> BTreeMap<char, String> {
    [('F', "F-F+F+F-F".to_string())].into()
}

fn collect_with_next(mut symbols: ExpandIter) -> Vec<u8> {
    let mut out = Vec::new();
    while let Some(b) = symbols.next() {
        out.push(b);
    }
    out
}

fn is_effect(byte: &u8) -> bool {
    b"Ff+-|[]".contains(byte) || b"&^/\\".contains(byte)
}

#[test]
fn zero_iterations_returns_axiom() {
    let result: Vec<u8> = CompiledGrammar::compile("F++F++F", &koch_rules()).expand(0).collect();
    assert_eq!(result, b"F++F++F");
}

#[test]
fn depth_zero_frame_streams_remaining_terminal_span_after_pop() {
    let mut symbols = CompiledGrammar::compile("ABC", &BTreeMap::new()).expand(0);

    assert_eq!(symbols.next(), Some(b'A'));
    assert!(symbols.stack_is_empty());
    assert_eq!(symbols.collect(), b"BC");
}

#[test]
fn empty_axiom_returns_no_symbols() {
    let result: Vec<u8> = CompiledGrammar::compile("", &koch_rules()).expand(1).collect();
    assert!(result.is_empty());
}

#[test]
fn empty_rule_rhs_resumes_parent_frame() {
    let rules: BTreeMap<char, String> = [('F', String::new())].into();
    let result: Vec<u8> = CompiledGrammar::compile("FA", &rules).expand(1).collect();
    assert_eq!(result, b"A");
}

#[test]
fn one_iteration_expands_f() {
    let result: Vec<u8> = CompiledGrammar::compile("F++F++F", &koch_rules()).expand(1).collect();
    // Each F → F-F++F-F; the ++ between each F are carried through.
    assert_eq!(result, b"F-F++F-F++F-F++F-F++F-F++F-F");
}

#[test]
fn effect_expansion_matches_full_expansion_with_ignored_symbols_removed() {
    let rules: BTreeMap<char, String> = [
        ('X', "F+Y&ä".to_string()),
        ('Y', "F[-X]^f".to_string()),
        ('ä', "F/Z".to_string()),
    ]
    .into();
    for iterations in 0..=3 {
        let expected: Vec<u8> = CompiledGrammar::compile("X|Y", &rules)
            .expand(iterations)
            .collect()
            .into_iter()
            .filter(is_effect)
            .collect();
        let actual: Vec<u8> = CompiledGrammar::compile("X|Y", &rules)
            .expand_effects(iterations)
            .collect();

        assert_eq!(actual, expected, "iterations={iterations}");
    }
}

#[test]
fn fold_matches_repeated_next_after_partial_terminal_consumption() {
    let rules: BTreeMap<char, String> = [('F', "F+F-X".to_string())].into();
    let mut folded = CompiledGrammar::compile("F", &rules).expand(3);
    let first = folded.next().unwrap();
    let folded = folded.fold_into(vec![first]);

    assert_eq!(
        folded,
        collect_with_next(CompiledGrammar::compile("F", &rules).expand(3))
    );
}

#[test]
fn f_count_grows_as_power_of_four() {
    // Koch snowflake: 3 F's at iter 0, multiplied by 4 each iteration.
    let rules = koch_rules();
    for iter in 0..=4u32 {
        let f_count = CompiledGrammar::compile("F++F++F", &rules)
            .expand(iter)
            .collect()
            .into_iter()
            .filter(|&b| b == b'F')
            .count();
        assert_eq!(f_count, 3 * 4usize.pow(iter), "iter {iter}");
    }
}

#[test]
fn max_safe_koch_exact_boundary() {
    // Koch: 3 × 4^n segments. At n=4 → 768; at n=5 → 3072.
    let rules = koch_rules();
    assert_eq!(max_safe_iterations("F++F++F", &rules, 768), 4);
    assert_eq!(max_safe_iterations("F++F++F", &rules, 767), 3);
}

#[test]
fn max_safe_sierpinski_gpu_limit() {
    // Sierpiński: 3 × 5^n segments.
    // n=9 → 5_859_375, n=10 → 29_296_875. Limit = 16_777_216.
    let rules = sierpinski_rules();
    assert_eq!(max_safe_iterations("F-F-F", &rules, 16_777_216), 9);
}

#[test]
fn max_safe_no_drawing_symbols_returns_hard_max() {
    // Start "A" with no F → always 0 segments, should return the hard maximum (30).
    let rules: BTreeMap<char, String> = [('A', "AA".to_string())].into();
    assert_eq!(max_safe_iterations("A", &rules, 16_777_216), 30);
}

#[test]
fn undefined_symbols_pass_through() {
    // X has no rule; F maps to FX.
    // iter 1: "F" → "FX"
    // iter 2: F→FX, X→X → "FXX"
    let rules: BTreeMap<char, String> = [('F', "FX".to_string())].into();
    let result: Vec<u8> = CompiledGrammar::compile("F", &rules).expand(2).collect();
    assert_eq!(result, b"FXX");
}

#[test]
fn expand_interleaves_multiple_rules() {
    // Rules: A → aA, B → Bb  (each rule adds a terminal and recurses).
    // iter 0: "AB"
    // iter 1: A→aA, B→Bb  →  "aABb"
    // iter 2: a→a, A→aA, B→Bb, b→b  →  "aaABbb"
    let rules: BTreeMap<char, String> = [('A', "aA".to_string()), ('B', "Bb".to_string())].into();
    let result: Vec<u8> = CompiledGrammar::compile("AB", &rules).expand(2).collect();
    assert_eq!(result, b"aaABbb");
}

#[test]
fn non_ascii_rule_key_is_applied() {
    let rules: BTreeMap<char, String> = [('ä', "FFF".to_string())].into();
    let result: Vec<u8> = CompiledGrammar::compile("ä", &rules).expand(1).collect();
    assert_eq!(result, b"FFF");
}

#[test]
fn non_ascii_without_rule_passes_through() {
    // 'ä' is assigned ID 128; with no rule it passes through unchanged.
    let result: Vec<u8> = CompiledGrammar::compile("ä", &BTreeMap::new()).expand(1).collect();
    assert_eq!(result, [128u8]);
}

#[test]
fn two_distinct_non_ascii_chars_get_distinct_ids() {
    // If 'ä' and 'ö' both got ID 128, the second rule would overwrite the
    // first in the rule table and "äö" would expand to "FFFF" instead of "FFF".
    let rules: BTreeMap<char, String> = [('ä', "F".to_string()), ('ö', "FF".to_string())].into();
    let result: Vec<u8> = CompiledGrammar::compile("äö", &rules).expand(1).collect();
    assert_eq!(result, b"FFF");
}

#[test]
fn non_ascii_in_rule_rhs_passes_through() {
    // 'ä' in the RHS is encoded in the arena (ID 128) and passes through
    // when the iterator encounters it with no rule of its own.
    let rules: BTreeMap<char, String> = [('F', "äF".to_string())].into();
    let result: Vec<u8> = CompiledGrammar::compile("F", &rules).expand(1).collect();
    assert_eq!(result, [128u8, b'F']);
}

#[test]
fn non_ascii_non_terminal_in_rhs_expands_correctly() {
    // 'ä' appears in both a RHS and has its own rule.
    // start "ä", rule ä→"äF":
    //   iter 0: [128]
    //   iter 1: ä→äF → [128, b'F']  (ä at depth 0 passes through)
    //   iter 2: ä→äF, depth of inner ä is 0 → [128, b'F', b'F']
    let rules: BTreeMap<char, String> = [('ä', "äF".to_string())].into();
    let result: Vec<u8> = CompiledGrammar::compile("ä", &rules).expand(2).collect();
    assert_eq!(result, [128u8, b'F', b'F']);
}

#[test]
fn mixed_ascii_and_non_ascii_axiom_with_rules() {
    // "Fä": F has no rule (passes through), ä → "FF".
    // iter 1: F passes through, ä→FF → "FFF"
    let rules: BTreeMap<char, String> = [('ä', "FF".to_string())].into();
    let result: Vec<u8> = CompiledGrammar::compile("Fä", &rules).expand(1).collect();
    assert_eq!(result, b"FFF");
}

#[test]
fn supports_128_distinct_non_ascii_symbols() {
    // U+0080..=U+00FF are exactly 128 distinct non-ASCII chars (IDs 128..=255).
    // None of them have rules, so they all pass through unchanged.
    let start: String = ('\u{0080}'..='\u{00FF}').collect();
    let result: Vec<u8> = CompiledGrammar::compile(&start, &BTreeMap::new()).expand(0).collect();
    assert_eq!(result.len(), 128);
    assert_eq!(result, (128u8..=255u8).collect::<Vec<_>>());
}

#[test]
fn unused_rules_empty_when_all_reachable() {
    let rules = koch_rules();
    assert_eq!(unused_rules("F++F++F", &rules), Vec::<char>::new());
}

#[test]
fn unused_rules_finds_symbol_never_referenced() {
    // 'X' has a rule but never appears in the start string or any reachable RHS.
    let rules: BTreeMap<char, String> = [('F', "F-F".to_string()), ('X', "FF".to_string())].into();
    assert_eq!(unused_rules("F", &rules), vec!['X']);
}

#[test]
fn unused_rules_finds_self_referencing_cycle_disconnected_from_axiom() {
    // 'X' only ever refers to itself; it's never reachable from the start string.
    let rules: BTreeMap<char, String> = [('F', "F-F".to_string()), ('X', "XX".to_string())].into();
    assert_eq!(unused_rules("F", &rules), vec!['X']);
}

#[test]
fn unused_rules_empty_for_no_rules() {
    let rules: BTreeMap<char, String> = BTreeMap::new();
    assert_eq!(unused_rules("F", &rules), Vec::<char>::new());
}

#[test]
fn compile_drops_rule_never_referenced() {
    // 'X' has a rule but never appears in the start string or any reachable RHS.
    let rules: BTreeMap<char, String> = [('F', "F-F".to_string()), ('X', "FF".to_string())].into();
    let grammar = CompiledGrammar::compile("F", &rules);

    assert!(!grammar.has_rule(b'X'));
    assert!(grammar.has_rule(b'F'));
}

#[test]
fn compile_drops_self_referencing_cycle_disconnected_from_axiom() {
    // 'X' only ever refers to itself; it's never reachable from the start string.
    let rules: BTreeMap<char, String> = [('F', "F-F".to_string()), ('X', "XX".to_string())].into();
    let grammar = CompiledGrammar::compile("F", &rules);

    assert!(!grammar.has_rule(b'X'));
}

#[test]
fn compile_arena_matches_compiling_without_the_dropped_rule() {
    // Dropping an unreachable rule must not change the arena bytes or
    // spans produced for the rules that remain.
    let with_dead_rule: BTreeMap<char, String> =
        [('F', "F-F".to_string()), ('X', "FF".to_string())].into();
    let without_dead_rule: BTreeMap<char, String> = [('F', "F-F".to_string())].into();

    let a = CompiledGrammar::compile("F", &with_dead_rule);
    let b = CompiledGrammar::compile("F", &without_dead_rule);

    assert_eq!(a.arena(), b.arena());
}

#[test]
fn compile_drops_dead_rule_with_a_unique_non_ascii_key() {
    // A dropped rule's key must never consume a non-ASCII ID: it is
    // filtered out before identifiers are assigned.
    let with_dead_rule: BTreeMap<char, String> =
        [('F', "F-F".to_string()), ('ä', "FF".to_string())].into();
    let without_dead_rule: BTreeMap<char, String> = [('F', "F-F".to_string())].into();

    let a = CompiledGrammar::compile("F", &with_dead_rule);
    let b = CompiledGrammar::compile("F", &without_dead_rule);

    assert_eq!(a.arena(), b.arena());
}

// --- Further cases ---

#[test]
fn dropping_an_unreachable_rule_keeps_the_expansion() {
    let with_dead_rule: BTreeMap<char, String> =
        [('F', "F-G".to_string()), ('G', "[F]".to_string()), ('ä', "FF".to_string())].into();
    let without_dead_rule: BTreeMap<char, String> =
        [('F', "F-G".to_string()), ('G', "[F]".to_string())].into();
    for n in 0..4u32 {
        let a: Vec<u8> = CompiledGrammar::compile("FG", &with_dead_rule).expand(n).collect();
        let b: Vec<u8> = CompiledGrammar::compile("FG", &without_dead_rule).expand(n).collect();
        assert_eq!(a, b, "expand({n})");
        let a: Vec<u8> = CompiledGrammar::compile("FG", &with_dead_rule).expand_effects(n).collect();
        let b: Vec<u8> = CompiledGrammar::compile("FG", &without_dead_rule).expand_effects(n).collect();
        assert_eq!(a, b, "expand_effects({n})");
    }
}

#[test]
fn arena_holds_start_string_then_its_effect_copy() {
    let rules: BTreeMap<char, String> = [('A', "F[X]".to_string())].into();
    let grammar = CompiledGrammar::compile("AF", &rules);
    // "AF", its copy "F", then "F[X]" and its copy "F[]".
    assert_eq!(grammar.arena(), b"AFFF[X]F[]");
}

#[test]
fn expansion_equals_rewriting_by_hand() {
    // Two steps of A → AB, B → A from "A": A → AB → ABA.
    let rules: BTreeMap<char, String> = [('A', "AB".to_string()), ('B', "A".to_string())].into();
    let result = CompiledGrammar::compile("A", &rules).expand(2).collect();
    assert_eq!(result, b"ABA");
    let result = CompiledGrammar::compile("A", &rules).expand(4).collect();
    assert_eq!(result, b"ABAABABA");
}

#[test]
fn effects_only_expansion_at_zero_iterations_filters_the_start_string() {
    let result = CompiledGrammar::compile("AF+Bf", &BTreeMap::new()).expand_effects(0).collect();
    assert_eq!(result, b"F+f");
}

#[test]
fn next_after_exhaustion_keeps_returning_none() {
    let mut symbols = CompiledGrammar::compile("F", &koch_rules()).expand(0);
    assert_eq!(symbols.next(), Some(b'F'));
    assert_eq!(symbols.next(), None);
    assert_eq!(symbols.next(), None);
}

#[test]
fn symbol_ids_fit_counts_only_encoded_symbols() {
    let start: String = ('\u{0080}'..='\u{00FF}').collect();
    assert!(symbol_ids_fit(&start, &BTreeMap::new()));
    let too_many: String = ('\u{0080}'..='\u{0100}').collect();
    assert!(!symbol_ids_fit(&too_many, &BTreeMap::new()));
    // A dead rule's non-ASCII symbols are never encoded.
    let rules: BTreeMap<char, String> = [('X', "\u{0100}".to_string())].into();
    assert!(symbol_ids_fit(&start, &rules));
    // A live rule's are.
    let rules: BTreeMap<char, String> = [('\u{0080}', "\u{0100}".to_string())].into();
    assert!(!symbol_ids_fit(&start, &rules));
}

#[test]
fn max_safe_iterations_with_saturated_limit_never_exceeds() {
    let rules: BTreeMap<char, String> = [('F', "FF".to_string())].into();
    assert_eq!(max_safe_iterations("F", &rules, u64::MAX), 30);
    // 2^n segments: 2^10 = 1024 ≤ 1024 < 2^11.
    assert_eq!(max_safe_iterations("F", &rules, 1024), 10);
}

#[test]
fn max_safe_iterations_is_zero_when_the_start_already_exceeds() {
    assert_eq!(max_safe_iterations("FFF", &koch_rules(), 2), 0);
    assert_eq!(max_safe_iterations("F", &koch_rules(), 0), 0);
}

#[test]
fn stack_directives_are_found_in_start_or_rules() {
    let rules: BTreeMap<char, String> = [('X', "F[+X]F".to_string())].into();
    assert!(has_stack_directives("X", &rules));
    assert!(has_stack_directives("[F]", &BTreeMap::new()));
    assert!(!has_stack_directives("F+F", &koch_rules()));
}
