//! Compiled grammars and their depth-first expansion.
//!
//! A compiled grammar stores the start string and every reachable rule's right-hand
//! side as byte spans of one shared arena; each string is immediately
//! followed by its effect-filtered copy (the symbols a turtle reacts to).
//! Expansion walks the derivation tree depth-first with an explicit stack, so
//! it yields exactly the `n`-step rewrite of the start string without materialising
//! intermediate strings.

use std::collections::BTreeMap;

use vstd::prelude::*;

use crate::ruleset::{agrees_on_appearing, appears, lemma_appears_rhs, lemma_iterate_agreeing, lemma_rewrite_origin, lemma_start_appears, is_sorted_listing, list_keys, represents, reachable_symbols, rule_list, rule_order, rules_view};
use crate::symbol_ids::{
    assignment_ok, assigned, encode, encode_into, id_table, in_domain, is_prefix_of, symbol_id,
    table_ok, lemma_id_table_covers, lemma_id_table_extends, lemma_id_table_ok,
    lemma_symbol_id_injective,
};
use crate::text::{chars_of, contains_char};
use crate::rewriting::{
    all_kept, iterate, keep_only, production, rewrite, lemma_iterate_empty, lemma_iterate_first, lemma_iterate_ruled,
    lemma_iterate_unruled, lemma_keep_only_all_kept, lemma_keep_only_concat,
    lemma_keep_only_idempotent, lemma_keep_only_kept, lemma_keep_only_single, lemma_keep_only_take_step,
};

verus! {

/// Bytes with a turtle effect: `F f + - | [ ]` and the 3D symbols `& ^ / \`.
pub open spec fn is_effect_byte(b: u8) -> bool {
    b == 70 || b == 102 || b == 43 || b == 45 || b == 124 || b == 91 || b == 93 || b == 38
        || b == 94 || b == 47 || b == 92
}

/// The predicate `is_effect_byte` as a value, for filtering.
pub open spec fn effect_filter() -> spec_fn(u8) -> bool {
    |b: u8| is_effect_byte(b)
}

/// Keeps only the bytes with a turtle effect.
pub open spec fn effects_of(s: Seq<u8>) -> Seq<u8> {
    keep_only(s, effect_filter())
}

/// Whether a byte has a turtle effect.
pub fn is_effect(b: u8) -> (r: bool)
    ensures
        r == is_effect_byte(b),
{
    b == 70 || b == 102 || b == 43 || b == 45 || b == 124 || b == 91 || b == 93 || b == 38 || b
        == 94 || b == 47 || b == 92
}

/// Half-open arena spans for one expandable string and its effect-filtered copy.
#[derive(Clone, Copy)]
struct RuleSpans {
    full: (usize, usize),
    effects: (usize, usize),
}

/// One pending string of the depth-first expansion: `arena[pos..end]`, still
/// to be expanded `depth` more times.
#[derive(Clone, Copy)]
struct Frame {
    pos: usize,
    end: usize,
    depth: u32,
}

spec fn span(arena: Seq<u8>, sp: (usize, usize)) -> Seq<u8> {
    arena.subrange(sp.0 as int, sp.1 as int)
}

spec fn span_ok(arena: Seq<u8>, sp: (usize, usize)) -> bool {
    sp.0 <= sp.1 <= arena.len()
}

spec fn spans_ok(arena: Seq<u8>, rs: RuleSpans) -> bool {
    &&& span_ok(arena, rs.full)
    &&& span_ok(arena, rs.effects)
    &&& span(arena, rs.effects) == effects_of(span(arena, rs.full))
}

spec fn table_map(arena: Seq<u8>, table: Seq<Option<RuleSpans>>) -> Map<u8, Seq<u8>> {
    Map::new(|b: u8| table[b as int] is Some, |b: u8| span(arena, table[b as int]->0.full))
}

/// The compiled form of a grammar: start string and rule right-hand-side spans in one
/// shared byte arena, with constant-time rule lookup per symbol byte.
pub struct CompiledGrammar {
    arena: Vec<u8>,
    rules: Vec<Option<RuleSpans>>,
    start: RuleSpans,
}

impl CompiledGrammar {
    /// Internal consistency: a rule slot for every byte, spans inside the
    /// arena, and every effect span equal to the filtered full span.
    pub closed spec fn wf(&self) -> bool {
        &&& self.rules@.len() == 256
        &&& spans_ok(self.arena@, self.start)
        &&& forall|i: int|
            0 <= i < 256 && (#[trigger] self.rules@[i]) is Some ==> spans_ok(
                self.arena@,
                self.rules@[i]->0,
            )
    }

    /// The encoded start string.
    pub closed spec fn start_symbols(&self) -> Seq<u8> {
        span(self.arena@, self.start.full)
    }

    /// The encoded rules: symbol byte to encoded right-hand side.
    pub closed spec fn rule_map(&self) -> Map<u8, Seq<u8>> {
        table_map(self.arena@, self.rules@)
    }

    /// The arena bytes: every expandable string followed by its filtered copy.
    pub closed spec fn arena_bytes(&self) -> Seq<u8> {
        self.arena@
    }

    /// The arena holding every encoded string and its effect-filtered copy.
    pub fn arena(&self) -> (a: &Vec<u8>)
        ensures
            a@ == self.arena_bytes(),
    {
        &self.arena
    }

    /// Whether the compiled grammar has a rule for `symbol`.
    pub fn has_rule(&self, symbol: u8) -> (r: bool)
        requires
            self.wf(),
        ensures
            r == self.rule_map().contains_key(symbol),
    {
        self.rules[symbol as usize].is_some()
    }

    /// Compiles `start` and `rules`: every symbol gets a byte identifier
    /// (ASCII symbols are their own byte, other symbols get 128, 129, ... in
    /// order of first appearance), and rules that can never be reached from
    /// `start` are dropped.
    #[verifier::spinoff_prover]
    pub fn compile(start: &str, rules: &BTreeMap<char, String>) -> (g: Self)
        requires
            fits_symbol_ids(start@, rules_view(rules@)),
        ensures
            compiled_from(g, start@, rules_view(rules@)),
    {
        let ghost m = rules_view(rules@);
        let ghost t = symbol_table(start@, m);
        let list = rule_list(rules);
        let start_chars = chars_of(start);
        let reachable = reachable_symbols(&start_chars, &list, Ghost(m));
        let ghost order = list_keys(list@);
        let ghost live = live_filter(start@, m);
        let ghost full_stream = symbol_stream(start@, m);
        proof {
            assert(m.dom() =~= rules@.dom());
            assert(order == rule_order(m));
            lemma_id_table_ok(full_stream);
            assert(order =~= order.take(0) + order.skip(0));
            assert(keep_only(order.take(0), live) =~= Seq::<char>::empty());
            assert(key_stream(keep_only(order.take(0), live), m) =~= Seq::<char>::empty());
            lemma_split_stream(start@, m, order, 0);
            assert(start_chars@ + key_stream(keep_only(order.skip(0), live), m) == full_stream);
            lemma_id_table_extends(start_chars@, key_stream(keep_only(order.skip(0), live), m));
            assert(Seq::<char>::empty() + start_chars@ =~= start_chars@);
            assert(id_table(Seq::<char>::empty()) =~= Seq::<char>::empty());
        }
        let mut non_ascii: Vec<(char, u8)> = Vec::new();
        let mut next_id: u8 = 128;
        let mut arena: Vec<u8> = Vec::new();
        proof {
            assert(assigned(non_ascii@) =~= Seq::<char>::empty());
        }
        encode_into(
            &mut arena,
            &start_chars,
            &mut non_ascii,
            &mut next_id,
            Ghost(Seq::<char>::empty()),
            Ghost(t),
        );
        let start_spans = finish_spans(&mut arena, 0);
        proof {
            assert(arena@.subrange(0, start_chars@.len() as int) =~= encode(start_chars@, t));
            assert(Seq::<u8>::empty() + encode(start_chars@, t) =~= encode(start_chars@, t));
            assert(keep_only(order.take(0), live) =~= Seq::<char>::empty());
            assert(arena@ =~= with_effects(encode(start@, t)) + rules_layout(
                keep_only(order.take(0), live),
                m,
                t,
            ));
        }
        let mut table: Vec<Option<RuleSpans>> = Vec::new();
        let mut b: usize = 0;
        while b < 256
            invariant
                b <= 256,
                table@.len() == b,
                forall|x: int| 0 <= x < b ==> (#[trigger] table@[x]) is None,
            decreases 256 - b,
        {
            table.push(None);
            b = b + 1;
        }
        let mut i: usize = 0;
        while i < list.len()
            invariant
                0 <= i <= list@.len(),
                order == list_keys(list@),
                order == rule_order(m),
                represents(list@, m),
                m == rules_view(rules@),
                live == live_filter(start@, m),
                t == symbol_table(start@, m),
                full_stream == symbol_stream(start@, m),
                table_ok(t),
                t.len() <= 128,
                forall|c: char| reachable@.contains(c) <==> appears(start@, m, c),
                table@.len() == 256,
                spans_ok(arena@, start_spans),
                span(arena@, start_spans.full) == encode(start@, t),
                arena@ == with_effects(encode(start@, t)) + rules_layout(
                    keep_only(order.take(i as int), live),
                    m,
                    t,
                ),
                assignment_ok(non_ascii@, next_id),
                assigned(non_ascii@) == id_table(
                    start@ + key_stream(keep_only(order.take(i as int), live), m),
                ),
                forall|x: int|
                    0 <= x < 256 && (#[trigger] table@[x]) is Some ==> spans_ok(
                        arena@,
                        table@[x]->0,
                    ) && exists|k: char|
                        keep_only(order.take(i as int), live).contains(k) && symbol_id(k, t) == x
                            && span(arena@, table@[x]->0.full) == encode(m[k], t),
                forall|k: char|
                    keep_only(order.take(i as int), live).contains(k) ==> (#[trigger] table@[symbol_id(
                        k,
                        t,
                    ) as int]) is Some,
            decreases list@.len() - i,
        {
            let key = list[i].0;
            let ghost done_keys = keep_only(order.take(i as int), live);
            let ghost seen = start@ + key_stream(done_keys, m);
            proof {
                assert(order[i as int] == key);
                lemma_keep_only_take_step(order, i as int, live);
            }
            if contains_char(&reachable, key) {
                let ghost chunk = seq![key] + m[key];
                proof {
                    assert(live(key));
                    lemma_keep_only_single(key, live);
                    lemma_key_stream_concat(done_keys, seq![key], m);
                    assert(key_stream(seq![key], m) =~= seq![key] + m[key]) by {
                        assert(seq![key].drop_last() =~= Seq::<char>::empty());
                        assert(seq![key].last() == key);
                        assert(key_stream(seq![key].drop_last(), m) =~= Seq::<char>::empty());
                    }
                    lemma_split_stream(start@, m, order, i as int + 1);
                    assert(start@ + key_stream(keep_only(order.take(i + 1), live), m) =~= seen + chunk);
                }
                let key_chars = vec![key];
                let mut key_bytes: Vec<u8> = Vec::new();
                proof {
                    assert(seen + key_chars@ =~= seen.push(key));
                    assert(seen + chunk =~= (seen + key_chars@) + m[key]);
                    lemma_id_table_extends(seen + key_chars@, m[key]);
                    lemma_prefix_trans(id_table(seen + key_chars@), id_table(seen + chunk), t);
                }
                encode_into(
                    &mut key_bytes,
                    &key_chars,
                    &mut non_ascii,
                    &mut next_id,
                    Ghost(seen),
                    Ghost(t),
                );
                let key_id = key_bytes[0];
                let rhs = &list[i].1;
                let rhs_start = arena.len();
                let ghost arena_before = arena@;
                proof {
                    assert(m[key] == rhs@);
                    assert(key_id == symbol_id(key, t));
                }
                encode_into(
                    &mut arena,
                    rhs,
                    &mut non_ascii,
                    &mut next_id,
                    Ghost(seen + key_chars@),
                    Ghost(t),
                );
                let spans = finish_spans(&mut arena, rhs_start);
                let ghost table_before = table@;
                table.set(key_id as usize, Some(spans));
                proof {
                    let new_done = keep_only(order.take(i + 1), live);
                    assert(new_done =~= done_keys.push(key));
                    assert(assigned(non_ascii@) == id_table(start@ + key_stream(new_done, m))) by {
                        assert((seen + key_chars@) + rhs@ =~= seen + chunk);
                    }
                    assert(span(arena@, spans.full) =~= encode(m[key], t));
                    assert(new_done.drop_last() =~= done_keys);
                    assert(new_done.last() == key);
                    assert(arena@ =~= with_effects(encode(start@, t)) + rules_layout(new_done, m, t));
                    assert(arena@.subrange(0, arena_before.len() as int) =~= arena_before);
                    lemma_spans_extend(arena_before, arena@, start_spans);
                    assert forall|x: int|
                        0 <= x < 256 && (#[trigger] table@[x]) is Some implies spans_ok(
                            arena@,
                            table@[x]->0,
                        ) && exists|k: char|
                            new_done.contains(k) && symbol_id(k, t) == x && span(
                                arena@,
                                table@[x]->0.full,
                            ) == encode(m[k], t) by {
                        if x == key_id as int {
                            assert(new_done[new_done.len() - 1] == key);
                        } else {
                            assert(table@[x] == table_before[x]);
                            lemma_spans_extend(arena_before, arena@, table@[x]->0);
                            let k = choose|k: char|
                                done_keys.contains(k) && symbol_id(k, t) == x && span(
                                    arena_before,
                                    table_before[x]->0.full,
                                ) == encode(m[k], t);
                            crate::ruleset::lemma_push_contains(done_keys, key, k);
                        }
                    }
                    assert forall|k: char| new_done.contains(k) implies (#[trigger] table@[symbol_id(
                        k,
                        t,
                    ) as int]) is Some by {
                        crate::ruleset::lemma_push_contains(done_keys, key, k);
                        if k != key {
                            assert(table_before[symbol_id(k, t) as int] is Some);
                        }
                    }
                }
            } else {
                proof {
                    assert(!live(key));
                    lemma_keep_only_single(key, live);
                    assert(keep_only(order.take(i + 1), live) =~= done_keys);
                }
            }
            i = i + 1;
        }
        proof {
            assert(order.take(list@.len() as int) =~= order);
        }
        let g = CompiledGrammar { arena, rules: table, start: start_spans };
        proof {
            assert(g.arena@ == arena_layout(start@, m));
            lemma_compiled_table(g, start@, m, order, live);
        }
        g
    }

    /// Full expansion: every symbol of the `iterations`-step rewrite of the start string.
    pub fn expand(self, iterations: u32) -> (it: ExpandIter)
        requires
            self.wf(),
        ensures
            it.wf(),
            it.remaining() == iterate(self.start_symbols(), self.rule_map(), iterations as nat),
    {
        let (pos, end) = self.start.full;
        let mut stack: Vec<Frame> = Vec::new();
        stack.push(Frame { pos, end, depth: iterations });
        let it = ExpandIter {
            grammar: self,
            effects_only: false,
            stack,
            terminal_pos: 0,
            terminal_end: 0,
        };
        proof {
            let arena = it.grammar.arena@;
            let rules = it.grammar.rule_map();
            let st = it.stack@;
            assert(st.drop_last() =~= Seq::<Frame>::empty());
            assert(span(arena, (0usize, 0usize)) =~= Seq::<u8>::empty());
            assert(stack_out(arena, rules, false, st.drop_last()) == Seq::<u8>::empty());
            assert(stack_out(arena, rules, false, st) == frame_out(arena, rules, false, st.last())
                + stack_out(arena, rules, false, st.drop_last()));
            assert(it.remaining() =~= frame_out(arena, rules, false, st.last()));
        }
        it
    }

    /// Effects-only expansion: the full expansion with every symbol that has no
    /// turtle effect removed.
    pub fn expand_effects(self, iterations: u32) -> (it: ExpandIter)
        requires
            self.wf(),
        ensures
            it.wf(),
            it.remaining() == effects_of(
                iterate(self.start_symbols(), self.rule_map(), iterations as nat),
            ),
    {
        // At zero iterations the start frame streams terminally, so it starts
        // on the filtered copy.
        let (pos, end) = if iterations == 0 {
            self.start.effects
        } else {
            self.start.full
        };
        let mut stack: Vec<Frame> = Vec::new();
        stack.push(Frame { pos, end, depth: iterations });
        let it = ExpandIter {
            grammar: self,
            effects_only: true,
            stack,
            terminal_pos: 0,
            terminal_end: 0,
        };
        proof {
            let arena = it.grammar.arena@;
            let rules = it.grammar.rule_map();
            let st = it.stack@;
            let ax = span(arena, it.grammar.start.full);
            assert(st.drop_last() =~= Seq::<Frame>::empty());
            assert(span(arena, (0usize, 0usize)) =~= Seq::<u8>::empty());
            assert(stack_out(arena, rules, true, st.drop_last()) == Seq::<u8>::empty());
            assert(stack_out(arena, rules, true, st) == frame_out(arena, rules, true, st.last())
                + stack_out(arena, rules, true, st.drop_last()));
            assert(it.remaining() =~= frame_out(arena, rules, true, st.last()));
            if iterations == 0 {
                lemma_keep_only_kept(ax, effect_filter());
                lemma_keep_only_idempotent(ax, effect_filter());
            }
        }
        it
    }
}

/// Whether compilation can give every non-ASCII symbol it encodes one of the
/// 128 identifiers above ASCII.
pub fn symbol_ids_fit(start: &str, rules: &BTreeMap<char, String>) -> (r: bool)
    ensures
        r == fits_symbol_ids(start@, rules_view(rules@)),
{
    let ghost m = rules_view(rules@);
    let ghost live = live_filter(start@, m);
    let list = rule_list(rules);
    let start_chars = chars_of(start);
    let reachable = reachable_symbols(&start_chars, &list, Ghost(m));
    let ghost order = list_keys(list@);
    let mut stream: Vec<char> = Vec::new();
    let mut j: usize = 0;
    while j < start_chars.len()
        invariant
            0 <= j <= start_chars@.len(),
            stream@ == start_chars@.take(j as int),
        decreases start_chars@.len() - j,
    {
        stream.push(start_chars[j]);
        j = j + 1;
        proof {
            assert(stream@ =~= start_chars@.take(j as int));
        }
    }
    proof {
        assert(start_chars@.take(start_chars@.len() as int) =~= start@);
        assert(keep_only(order.take(0), live) =~= Seq::<char>::empty());
        assert(stream@ =~= start@ + key_stream(keep_only(order.take(0), live), m));
    }
    let mut i: usize = 0;
    while i < list.len()
        invariant
            0 <= i <= list@.len(),
            order == list_keys(list@),
            represents(list@, m),
            live == live_filter(start@, m),
            forall|c: char| reachable@.contains(c) <==> appears(start@, m, c),
            stream@ == start@ + key_stream(keep_only(order.take(i as int), live), m),
        decreases list@.len() - i,
    {
        let key = list[i].0;
        let ghost done_keys = keep_only(order.take(i as int), live);
        let ghost before = stream@;
        proof {
            assert(order[i as int] == key);
            lemma_keep_only_take_step(order, i as int, live);
        }
        if contains_char(&reachable, key) {
            stream.push(key);
            let rhs = &list[i].1;
            let mut k: usize = 0;
            while k < rhs.len()
                invariant
                    0 <= k <= rhs@.len(),
                    stream@ == before.push(key) + rhs@.take(k as int),
                decreases rhs@.len() - k,
            {
                stream.push(rhs[k]);
                k = k + 1;
                proof {
                    assert(stream@ =~= before.push(key) + rhs@.take(k as int));
                }
            }
            proof {
                assert(rhs@.take(rhs@.len() as int) =~= rhs@);
                assert(m[key] == rhs@);
                lemma_key_stream_concat(done_keys, seq![key], m);
                assert(seq![key].drop_last() =~= Seq::<char>::empty());
                assert(key_stream(seq![key].drop_last(), m) =~= Seq::<char>::empty());
                assert(key_stream(seq![key], m) =~= seq![key] + m[key]);
                assert(stream@ =~= start@ + key_stream(keep_only(order.take(i + 1), live), m));
            }
        } else {
            proof {
                assert(keep_only(order.take(i + 1), live) =~= done_keys);
            }
        }
        i = i + 1;
    }
    proof {
        assert(order.take(list@.len() as int) =~= order);
        assert(stream@ == symbol_stream(start@, m));
    }
    let mut table: Vec<char> = Vec::new();
    let mut p: usize = 0;
    proof {
        assert(stream@.take(0) =~= Seq::<char>::empty());
        assert(id_table(Seq::<char>::empty()) =~= Seq::<char>::empty());
    }
    while p < stream.len()
        invariant
            0 <= p <= stream@.len(),
            table@ == id_table(stream@.take(p as int)),
        decreases stream@.len() - p,
    {
        let c = stream[p];
        proof {
            assert(stream@.take(p + 1) =~= stream@.take(p as int).push(c));
            crate::symbol_ids::lemma_id_table_push(stream@.take(p as int), c);
        }
        if !crate::symbol_ids::char_is_ascii(c) && !contains_char(&table, c) {
            table.push(c);
        }
        p = p + 1;
    }
    proof {
        assert(stream@.take(stream@.len() as int) =~= stream@);
    }
    table.len() <= 128
}

/// The predicate "`k` appears while expanding `start`", as a value.
pub open spec fn live_filter(start: Seq<char>, m: Map<char, Seq<char>>) -> spec_fn(char) -> bool {
    |k: char| appears(start, m, k)
}

/// Rule symbols that appear while expanding `start`, in increasing code-point order.
pub open spec fn live_rule_order(start: Seq<char>, m: Map<char, Seq<char>>) -> Seq<char> {
    keep_only(rule_order(m), live_filter(start, m))
}

/// Each key followed by its right-hand side, keys in the given order.
pub open spec fn key_stream(keys: Seq<char>, m: Map<char, Seq<char>>) -> Seq<char>
    decreases keys.len(),
{
    if keys.len() == 0 {
        Seq::empty()
    } else {
        key_stream(keys.drop_last(), m) + (seq![keys.last()] + m[keys.last()])
    }
}

/// Every symbol compilation assigns an identifier to, in the order it does so:
/// the start string, then each live rule's symbol and right-hand side.
pub open spec fn symbol_stream(start: Seq<char>, m: Map<char, Seq<char>>) -> Seq<char> {
    start + key_stream(live_rule_order(start, m), m)
}

/// The non-ASCII identifier table compilation builds.
pub open spec fn symbol_table(start: Seq<char>, m: Map<char, Seq<char>>) -> Seq<char> {
    id_table(symbol_stream(start, m))
}

/// At most 128 distinct non-ASCII symbols need an identifier.
pub open spec fn fits_symbol_ids(start: Seq<char>, m: Map<char, Seq<char>>) -> bool {
    symbol_table(start, m).len() <= 128
}

/// An encoded string followed by its effect-filtered copy.
pub open spec fn with_effects(s: Seq<u8>) -> Seq<u8> {
    s + effects_of(s)
}

/// The right-hand sides of `keys`, in order, each encoded and followed by its
/// effect-filtered copy.
pub open spec fn rules_layout(keys: Seq<char>, m: Map<char, Seq<char>>, t: Seq<char>) -> Seq<u8>
    decreases keys.len(),
{
    if keys.len() == 0 {
        Seq::empty()
    } else {
        rules_layout(keys.drop_last(), m, t) + with_effects(encode(m[keys.last()], t))
    }
}

/// The arena compilation builds: the encoded start string and then every live
/// rule's right-hand side in increasing symbol order, each followed by its
/// effect-filtered copy.
pub open spec fn arena_layout(start: Seq<char>, m: Map<char, Seq<char>>) -> Seq<u8> {
    let t = symbol_table(start, m);
    with_effects(encode(start, t)) + rules_layout(live_rule_order(start, m), m, t)
}

/// `g` is the compiled form of the grammar `start`, `m`: the start string and
/// every live rule, encoded with the symbol table; no other rule.
pub open spec fn compiled_from(g: CompiledGrammar, start: Seq<char>, m: Map<char, Seq<char>>) -> bool {
    let t = symbol_table(start, m);
    &&& g.wf()
    &&& g.arena_bytes() == arena_layout(start, m)
    &&& g.start_symbols() == encode(start, t)
    &&& forall|k: char|
        appears(start, m, k) && m.contains_key(k) ==> g.rule_map().contains_key(
            #[trigger] symbol_id(k, t),
        ) && g.rule_map()[symbol_id(k, t)] == encode(m[k], t)
    &&& forall|b: u8|
        #[trigger] g.rule_map().contains_key(b) ==> exists|k: char|
            appears(start, m, k) && m.contains_key(k) && #[trigger] symbol_id(k, t) == b
}

pub proof fn lemma_key_stream_concat(a: Seq<char>, b: Seq<char>, m: Map<char, Seq<char>>)
    ensures
        key_stream(a + b, m) == key_stream(a, m) + key_stream(b, m),
    decreases b.len(),
{
    if b.len() == 0 {
        assert(a + b =~= a);
        assert(key_stream(a, m) + key_stream(b, m) =~= key_stream(a, m));
    } else {
        assert((a + b).drop_last() =~= a + b.drop_last());
        assert((a + b).last() == b.last());
        lemma_key_stream_concat(a, b.drop_last(), m);
        assert(key_stream(a + b, m) =~= key_stream(a, m) + (key_stream(b.drop_last(), m) + (
        seq![b.last()] + m[b.last()])));
    }
}

/// A key and every symbol of its right-hand side occur in the key stream.
pub proof fn lemma_key_stream_holds(keys: Seq<char>, m: Map<char, Seq<char>>, i: int, x: char)
    requires
        0 <= i < keys.len(),
        x == keys[i] || m[keys[i]].contains(x),
    ensures
        key_stream(keys, m).contains(x),
    decreases keys.len(),
{
    let front = key_stream(keys.drop_last(), m);
    let tail = seq![keys.last()] + m[keys.last()];
    if i == keys.len() - 1 {
        if x == keys[i] {
            assert((front + tail)[front.len() as int] == x);
        } else {
            let j = choose|j: int| 0 <= j < m[keys[i]].len() && m[keys[i]][j] == x;
            assert((front + tail)[front.len() + 1 + j] == x);
        }
    } else {
        assert(keys.drop_last()[i] == keys[i]);
        lemma_key_stream_holds(keys.drop_last(), m, i, x);
        let j = choose|j: int| 0 <= j < front.len() && front[j] == x;
        assert((front + tail)[j] == x);
    }
}

pub proof fn lemma_keep_only_contains(s: Seq<char>, keep: spec_fn(char) -> bool, x: char)
    ensures
        keep_only(s, keep).contains(x) <==> (s.contains(x) && keep(x)),
    decreases s.len(),
{
    if s.len() > 0 {
        lemma_keep_only_contains(s.drop_first(), keep, x);
        let head = if keep(s[0]) {
            seq![s[0]]
        } else {
            Seq::<char>::empty()
        };
        let rest = keep_only(s.drop_first(), keep);
        assert(keep_only(s, keep) == head + rest);
        if keep_only(s, keep).contains(x) {
            let j = choose|j: int| 0 <= j < (head + rest).len() && (head + rest)[j] == x;
            if j < head.len() {
                assert(s[0] == x);
            } else {
                assert(rest[j - head.len()] == x);
                let k = choose|k: int| 0 <= k < s.drop_first().len() && s.drop_first()[k] == x;
                assert(s[k + 1] == x);
            }
        }
        if s.contains(x) && keep(x) {
            let k = choose|k: int| 0 <= k < s.len() && s[k] == x;
            if k == 0 {
                assert((head + rest)[0] == x);
            } else {
                assert(s.drop_first()[k - 1] == x);
                let j = choose|j: int| 0 <= j < rest.len() && rest[j] == x;
                assert((head + rest)[head.len() + j] == x);
            }
        }
    }
}

/// Every symbol that appears, and every symbol of a live rule, is in the
/// symbol stream and so has an identifier.
pub proof fn lemma_stream_covers(start: Seq<char>, m: Map<char, Seq<char>>, x: char)
    requires
        m.dom().finite(),
        appears(start, m, x) || exists|k: char|
            appears(start, m, k) && m.contains_key(k) && #[trigger] m[k].contains(x),
    ensures
        symbol_stream(start, m).contains(x),
        in_domain(x, symbol_table(start, m)),
{
    let f = symbol_stream(start, m);
    let kl = live_rule_order(start, m);
    let ks = key_stream(kl, m);
    let order = rule_order(m);
    lemma_rule_order_exists(m);
    if exists|k: char| appears(start, m, k) && m.contains_key(k) && #[trigger] m[k].contains(x) {
        let k = choose|k: char| appears(start, m, k) && m.contains_key(k) && #[trigger] m[k].contains(x);
        assert(order.contains(k));
        lemma_keep_only_contains(order, live_filter(start, m), k);
        let i = choose|i: int| 0 <= i < kl.len() && kl[i] == k;
        lemma_key_stream_holds(kl, m, i, x);
        let j = choose|j: int| 0 <= j < ks.len() && ks[j] == x;
        assert(f[start.len() + j] == x);
    } else {
        let n = choose|n: nat| #[trigger] crate::rewriting::iterate(start, m, n).contains(x);
        crate::ruleset::lemma_appears_origin(start, m, n, x);
        if start.contains(x) {
            let j = choose|j: int| 0 <= j < start.len() && start[j] == x;
            assert(f[j] == x);
        } else {
            let k = choose|k: char|
                appears(start, m, k) && m.contains_key(k) && #[trigger] m[k].contains(x);
        }
    }
    let j = choose|j: int| 0 <= j < f.len() && f[j] == x;
    lemma_id_table_covers(f, j);
}

/// The rule symbols of a finite map have a sorted listing.
pub proof fn lemma_rule_order_exists(m: Map<char, Seq<char>>)
    requires
        m.dom().finite(),
    ensures
        is_sorted_listing(rule_order(m), m.dom()),
{
    crate::ruleset::lemma_sorted_listing_exists(m.dom());
}

/// Appends the effect-filtered copy of `arena[start..]` and returns the spans
/// of the original string and of its copy.
fn finish_spans(arena: &mut Vec<u8>, start: usize) -> (rs: RuleSpans)
    requires
        start <= old(arena)@.len(),
    ensures
        final(arena)@ == old(arena)@ + effects_of(old(arena)@.subrange(start as int, old(arena)@.len() as int)),
        rs.full.0 == start,
        rs.full.1 == old(arena)@.len(),
        rs.effects.0 == old(arena)@.len(),
        rs.effects.1 == final(arena)@.len(),
        spans_ok(final(arena)@, rs),
{
    let ghost a0 = arena@;
    let end = arena.len();
    let mut j: usize = start;
    while j < end
        invariant
            start <= j <= end,
            end == a0.len(),
            arena@ == a0 + effects_of(a0.subrange(start as int, j as int)),
        decreases end - j,
    {
        let b = arena[j];
        proof {
            assert(arena@[j as int] == a0[j as int]);
            assert(a0.subrange(start as int, j + 1) =~= a0.subrange(start as int, j as int) + seq![b]);
            lemma_keep_only_concat(a0.subrange(start as int, j as int), seq![b], effect_filter());
            lemma_keep_only_single(b, effect_filter());
        }
        if is_effect(b) {
            arena.push(b);
        }
        j = j + 1;
        proof {
            assert(arena@ =~= a0 + effects_of(a0.subrange(start as int, j as int)));
        }
    }
    let rs = RuleSpans { full: (start, end), effects: (end, arena.len()) };
    proof {
        let f = a0.subrange(start as int, end as int);
        assert(span(arena@, rs.full) =~= f);
        assert(span(arena@, rs.effects) =~= effects_of(f));
    }
    rs
}

/// Splitting the rule order at `i` splits the symbol stream accordingly, and
/// the table of any such prefix is a prefix of the full symbol table.
proof fn lemma_split_stream(start: Seq<char>, m: Map<char, Seq<char>>, order: Seq<char>, i: int)
    requires
        order == rule_order(m),
        0 <= i <= order.len(),
    ensures
        symbol_stream(start, m) == (start + key_stream(keep_only(order.take(i), live_filter(start, m)), m))
            + key_stream(keep_only(order.skip(i), live_filter(start, m)), m),
        is_prefix_of(
            id_table(start + key_stream(keep_only(order.take(i), live_filter(start, m)), m)),
            symbol_table(start, m),
        ),
{
    let live = live_filter(start, m);
    let a = keep_only(order.take(i), live);
    let b = keep_only(order.skip(i), live);
    assert(order =~= order.take(i) + order.skip(i));
    lemma_keep_only_concat(order.take(i), order.skip(i), live);
    lemma_key_stream_concat(a, b, m);
    assert(symbol_stream(start, m) =~= (start + key_stream(a, m)) + key_stream(b, m));
    lemma_id_table_extends(start + key_stream(a, m), key_stream(b, m));
}

proof fn lemma_prefix_trans(a: Seq<char>, b: Seq<char>, c: Seq<char>)
    requires
        is_prefix_of(a, b),
        is_prefix_of(b, c),
    ensures
        is_prefix_of(a, c),
{
    assert forall|i: int| 0 <= i < a.len() implies #[trigger] c[i] == a[i] by {
        assert(b[i] == a[i]);
        assert(c[i] == b[i]);
    }
}

/// Spans stay valid, with the same contents, when the arena only grows at its end.
proof fn lemma_spans_extend(old_arena: Seq<u8>, new_arena: Seq<u8>, rs: RuleSpans)
    requires
        spans_ok(old_arena, rs),
        old_arena.len() <= new_arena.len(),
        new_arena.subrange(0, old_arena.len() as int) == old_arena,
    ensures
        spans_ok(new_arena, rs),
        span(new_arena, rs.full) == span(old_arena, rs.full),
{
    assert(span(new_arena, rs.full) =~= span(old_arena, rs.full)) by {
        assert forall|i: int| 0 <= i < span(old_arena, rs.full).len() implies span(new_arena, rs.full)[i]
            == span(old_arena, rs.full)[i] by {
            assert(new_arena.subrange(0, old_arena.len() as int)[rs.full.0 + i] == new_arena[rs.full.0 + i]);
        }
    }
    assert(span(new_arena, rs.effects) =~= span(old_arena, rs.effects)) by {
        assert forall|i: int| 0 <= i < span(old_arena, rs.effects).len() implies span(new_arena, rs.effects)[i]
            == span(old_arena, rs.effects)[i] by {
            assert(new_arena.subrange(0, old_arena.len() as int)[rs.effects.0 + i] == new_arena[rs.effects.0 + i]);
        }
    }
}

/// The table built by compilation makes the grammar the compiled form of
/// `start` and `m`.
proof fn lemma_compiled_table(
    g: CompiledGrammar,
    start: Seq<char>,
    m: Map<char, Seq<char>>,
    order: Seq<char>,
    live: spec_fn(char) -> bool,
)
    requires
        m.dom().finite(),
        order == rule_order(m),
        is_sorted_listing(order, m.dom()),
        live == live_filter(start, m),
        table_ok(symbol_table(start, m)),
        symbol_table(start, m).len() <= 128,
        g.rules@.len() == 256,
        g.arena@ == arena_layout(start, m),
        spans_ok(g.arena@, g.start),
        span(g.arena@, g.start.full) == encode(start, symbol_table(start, m)),
        forall|x: int|
            0 <= x < 256 && (#[trigger] g.rules@[x]) is Some ==> spans_ok(g.arena@, g.rules@[x]->0)
                && exists|k: char|
                keep_only(order, live).contains(k) && symbol_id(k, symbol_table(start, m)) == x
                    && span(g.arena@, g.rules@[x]->0.full) == encode(m[k], symbol_table(start, m)),
        forall|k: char|
            keep_only(order, live).contains(k) ==> (#[trigger] g.rules@[symbol_id(
                k,
                symbol_table(start, m),
            ) as int]) is Some,
    ensures
        compiled_from(g, start, m),
{
    let t = symbol_table(start, m);
    assert(g.wf());
    assert forall|k: char| appears(start, m, k) && m.contains_key(k) implies g.rule_map().contains_key(
        #[trigger] symbol_id(k, t),
    ) && g.rule_map()[symbol_id(k, t)] == encode(m[k], t) by {
        assert(order.contains(k));
        lemma_keep_only_contains(order, live, k);
        let x = symbol_id(k, t) as int;
        assert(g.rules@[x] is Some);
        let k2 = choose|k2: char|
            keep_only(order, live).contains(k2) && symbol_id(k2, t) == x && span(
                g.arena@,
                g.rules@[x]->0.full,
            ) == encode(m[k2], t);
        lemma_keep_only_contains(order, live, k2);
        lemma_stream_covers(start, m, k);
        lemma_stream_covers(start, m, k2);
        lemma_symbol_id_injective(k, k2, t);
    }
    assert forall|b: u8| #[trigger] g.rule_map().contains_key(b) implies exists|k: char|
        appears(start, m, k) && m.contains_key(k) && #[trigger] symbol_id(k, t) == b by {
        let x = b as int;
        assert(g.rules@[x] is Some);
        let k = choose|k: char|
            keep_only(order, live).contains(k) && symbol_id(k, t) == x && span(
                g.arena@,
                g.rules@[x]->0.full,
            ) == encode(m[k], t);
        lemma_keep_only_contains(order, live, k);
        assert(appears(start, m, k) && m.contains_key(k) && symbol_id(k, t) == b);
    }
}

/// Encoding a string whose symbols all appear commutes with one rewriting step.
proof fn lemma_rewrite_encoded(g: CompiledGrammar, start: Seq<char>, m: Map<char, Seq<char>>, s: Seq<char>)
    requires
        m.dom().finite(),
        compiled_from(g, start, m),
        fits_symbol_ids(start, m),
        forall|c: char| s.contains(c) ==> appears(start, m, c),
    ensures
        rewrite(encode(s, symbol_table(start, m)), g.rule_map()) == encode(
            rewrite(s, m),
            symbol_table(start, m),
        ),
    decreases s.len(),
{
    let t = symbol_table(start, m);
    let r = g.rule_map();
    let e = encode(s, t);
    if s.len() == 0 {
        assert(e =~= Seq::<u8>::empty());
        assert(encode(rewrite(s, m), t) =~= Seq::<u8>::empty());
    } else {
        let c = s[0];
        assert(s.contains(c));
        let rest = s.drop_first();
        assert forall|x: char| rest.contains(x) implies appears(start, m, x) by {
            let i = choose|i: int| 0 <= i < rest.len() && rest[i] == x;
            assert(s[i + 1] == x);
            assert(s.contains(x));
        }
        lemma_rewrite_encoded(g, start, m, rest);
        assert(e[0] == symbol_id(c, t));
        assert(e.drop_first() =~= encode(rest, t));
        let id = symbol_id(c, t);
        lemma_id_table_ok(symbol_stream(start, m));
        lemma_stream_covers(start, m, c);
        if !m.contains_key(c) {
            if r.contains_key(id) {
                let k = choose|k: char|
                    appears(start, m, k) && m.contains_key(k) && #[trigger] symbol_id(k, t) == id;
                lemma_stream_covers(start, m, k);
                lemma_symbol_id_injective(k, c, t);
            }
            assert(encode(seq![c], t) =~= seq![id]);
        }
        assert(production(id, r) == encode(production(c, m), t));
        assert(encode(production(c, m) + rewrite(rest, m), t) =~= encode(production(c, m), t)
            + encode(rewrite(rest, m), t));
    }
}

/// Encoding a string whose symbols all appear commutes with iterated rewriting.
proof fn lemma_iterate_encoded(
    g: CompiledGrammar,
    start: Seq<char>,
    m: Map<char, Seq<char>>,
    s: Seq<char>,
    n: nat,
)
    requires
        m.dom().finite(),
        compiled_from(g, start, m),
        fits_symbol_ids(start, m),
        forall|c: char| s.contains(c) ==> appears(start, m, c),
    ensures
        iterate(encode(s, symbol_table(start, m)), g.rule_map(), n) == encode(
            iterate(s, m, n),
            symbol_table(start, m),
        ),
    decreases n,
{
    if n > 0 {
        lemma_rewrite_encoded(g, start, m, s);
        let s1 = rewrite(s, m);
        assert forall|x: char| s1.contains(x) implies appears(start, m, x) by {
            lemma_rewrite_origin(s, m, x);
            if !(s.contains(x) && !m.contains_key(x)) {
                let p = choose|p: char|
                    #![trigger m[p]]
                    s.contains(p) && m.contains_key(p) && m[p].contains(x);
                lemma_appears_rhs(start, m, p, x);
            }
        }
        lemma_iterate_encoded(g, start, m, s1, (n - 1) as nat);
    }
}

/// Expanding a compiled grammar `n` times is rewriting the authored grammar `n`
/// times and encoding the result symbol by symbol.
pub proof fn lemma_compiled_expansion(
    g: CompiledGrammar,
    start: Seq<char>,
    rules: BTreeMap<char, String>,
    n: nat,
)
    requires
        fits_symbol_ids(start, rules_view(rules@)),
        compiled_from(g, start, rules_view(rules@)),
    ensures
        iterate(g.start_symbols(), g.rule_map(), n) == encode(
            iterate(start, rules_view(rules@), n),
            symbol_table(start, rules_view(rules@)),
        ),
{
    let m = rules_view(rules@);
    assert(m.dom() =~= rules@.dom());
    assert(rules@.dom().finite());
    assert forall|c: char| start.contains(c) implies appears(start, m, c) by {
        assert(iterate(start, m, 0) == start);
    }
    lemma_iterate_encoded(g, start, m, start, n);
}

/// Keeping some elements of a strictly increasing listing keeps it strictly increasing.
proof fn lemma_keep_only_sorted(q: Seq<char>, keep: spec_fn(char) -> bool)
    requires
        forall|i: int, j: int| 0 <= i < j < q.len() ==> (q[i] as int) < (q[j] as int),
    ensures
        forall|i: int, j: int|
            0 <= i < j < keep_only(q, keep).len() ==> (keep_only(q, keep)[i] as int) < (keep_only(
                q,
                keep,
            )[j] as int),
    decreases q.len(),
{
    if q.len() > 0 {
        let rest = q.drop_first();
        lemma_keep_only_sorted(rest, keep);
        let head = if keep(q[0]) {
            seq![q[0]]
        } else {
            Seq::<char>::empty()
        };
        let tail = keep_only(rest, keep);
        let r = keep_only(q, keep);
        assert(r == head + tail);
        assert forall|i: int, j: int| 0 <= i < j < r.len() implies (r[i] as int) < (r[j] as int) by {
            if i < head.len() {
                assert(r[i] == q[0]);
                assert(r[j] == tail[j - head.len()]);
                assert(tail.contains(tail[j - head.len()]));
                lemma_keep_only_contains(rest, keep, tail[j - head.len()]);
                let t = choose|t: int| 0 <= t < rest.len() && rest[t] == tail[j - head.len()];
                assert(q[t + 1] == rest[t]);
            } else {
                assert(r[i] == tail[i - head.len()]);
                assert(r[j] == tail[j - head.len()]);
            }
        }
    }
}

proof fn lemma_key_stream_agree(keys: Seq<char>, m: Map<char, Seq<char>>, m2: Map<char, Seq<char>>)
    requires
        forall|i: int| 0 <= i < keys.len() ==> m2[#[trigger] keys[i]] == m[keys[i]],
    ensures
        key_stream(keys, m2) == key_stream(keys, m),
    decreases keys.len(),
{
    if keys.len() > 0 {
        assert forall|i: int| 0 <= i < keys.drop_last().len() implies m2[#[trigger] keys.drop_last()[i]]
            == m[keys.drop_last()[i]] by {
            assert(keys.drop_last()[i] == keys[i]);
        }
        lemma_key_stream_agree(keys.drop_last(), m, m2);
        assert(m2[keys[keys.len() - 1]] == m[keys[keys.len() - 1]]);
    }
}

proof fn lemma_rules_layout_agree(
    keys: Seq<char>,
    m: Map<char, Seq<char>>,
    m2: Map<char, Seq<char>>,
    t: Seq<char>,
)
    requires
        forall|i: int| 0 <= i < keys.len() ==> m2[#[trigger] keys[i]] == m[keys[i]],
    ensures
        rules_layout(keys, m2, t) == rules_layout(keys, m, t),
    decreases keys.len(),
{
    if keys.len() > 0 {
        assert forall|i: int| 0 <= i < keys.drop_last().len() implies m2[#[trigger] keys.drop_last()[i]]
            == m[keys.drop_last()[i]] by {
            assert(keys.drop_last()[i] == keys[i]);
        }
        lemma_rules_layout_agree(keys.drop_last(), m, m2, t);
        assert(m2[keys[keys.len() - 1]] == m[keys[keys.len() - 1]]);
    }
}

/// A rule whose symbol never appears changes nothing compilation produces:
/// dropping it leaves the appearing symbols, the live rules, the symbol table
/// and the arena exactly as they were.
pub proof fn lemma_dead_rule_irrelevant(start: Seq<char>, m: Map<char, Seq<char>>, k: char)
    requires
        m.dom().finite(),
        !appears(start, m, k),
    ensures
        forall|x: char| #[trigger] appears(start, m.remove(k), x) == appears(start, m, x),
        live_rule_order(start, m.remove(k)) == live_rule_order(start, m),
        symbol_table(start, m.remove(k)) == symbol_table(start, m),
        arena_layout(start, m.remove(k)) == arena_layout(start, m),
{
    let m2 = m.remove(k);
    assert forall|c: char| #[trigger] appears(start, m, c) implies (m2.contains_key(c)
        == m.contains_key(c) && (m.contains_key(c) ==> m2[c] == m[c])) by {
        assert(c != k);
    }
    assert(agrees_on_appearing(start, m, m2));
    lemma_start_appears(start, m);
    assert forall|x: char| #[trigger] appears(start, m2, x) == appears(start, m, x) by {
        if appears(start, m, x) {
            let n = choose|n: nat| #[trigger] iterate(start, m, n).contains(x);
            lemma_iterate_agreeing(start, m, m2, start, n);
            assert(iterate(start, m2, n).contains(x));
        }
        if appears(start, m2, x) {
            let n = choose|n: nat| #[trigger] iterate(start, m2, n).contains(x);
            lemma_iterate_agreeing(start, m, m2, start, n);
            assert(iterate(start, m, n).contains(x));
        }
    }
    let live = live_filter(start, m);
    let live2 = live_filter(start, m2);
    assert(live2 =~= live);
    let q = rule_order(m);
    lemma_rule_order_exists(m);
    let ne_k = |x: char| x != k;
    let q2 = keep_only(q, ne_k);
    lemma_keep_only_sorted(q, ne_k);
    assert forall|c: char| m2.dom().contains(c) <==> q2.contains(c) by {
        lemma_keep_only_contains(q, ne_k, c);
    }
    assert(is_sorted_listing(q2, m2.dom()));
    assert(m2.dom() =~= m.dom().remove(k));
    lemma_rule_order_exists(m2);
    crate::ruleset::lemma_sorted_listing_unique(q2, rule_order(m2), m2.dom());
    assert forall|x: char| #[trigger] live(x) implies ne_k(x) by {}
    crate::rewriting::lemma_keep_only_nested(q, ne_k, live);
    let l = live_rule_order(start, m);
    assert(live_rule_order(start, m2) == l);
    assert forall|i: int| 0 <= i < l.len() implies m2[#[trigger] l[i]] == m[l[i]] by {
        assert(l.contains(l[i]));
        lemma_keep_only_contains(q, live, l[i]);
        assert(appears(start, m, l[i]));
    }
    lemma_key_stream_agree(l, m, m2);
    assert(symbol_stream(start, m2) == symbol_stream(start, m));
    lemma_rules_layout_agree(l, m, m2, symbol_table(start, m));
}

/// Dropping any finite set of rules whose symbols never appear changes
/// nothing compilation produces.
proof fn lemma_dead_rules_irrelevant(start: Seq<char>, m: Map<char, Seq<char>>, dead: Set<char>)
    requires
        m.dom().finite(),
        dead.finite(),
        forall|k: char| #[trigger] dead.contains(k) ==> !appears(start, m, k),
    ensures
        forall|x: char| #[trigger] appears(start, m.remove_keys(dead), x) == appears(start, m, x),
        live_rule_order(start, m.remove_keys(dead)) == live_rule_order(start, m),
        symbol_table(start, m.remove_keys(dead)) == symbol_table(start, m),
        arena_layout(start, m.remove_keys(dead)) == arena_layout(start, m),
    decreases dead.len(),
{
    if dead.len() == 0 {
        assert(dead =~= Set::<char>::empty());
        assert(m.remove_keys(dead) =~= m);
    } else {
        let k = dead.choose();
        vstd::set::axiom_set_choose_len(dead);
        lemma_dead_rule_irrelevant(start, m, k);
        let m1 = m.remove(k);
        let rest = dead.remove(k);
        assert forall|j: char| #[trigger] rest.contains(j) implies !appears(start, m1, j) by {
            assert(dead.contains(j));
        }
        lemma_dead_rules_irrelevant(start, m1, rest);
        assert(m1.remove_keys(rest) =~= m.remove_keys(dead));
    }
}

/// Compiling only the rules whose symbols appear, the rules reachable from
/// the start string, gives what compiling every rule gives: the same
/// appearing symbols, live rules, symbol table and arena, so the same
/// expansion.
pub proof fn lemma_unreachable_rules_irrelevant(start: Seq<char>, m: Map<char, Seq<char>>)
    requires
        m.dom().finite(),
    ensures
        ({
            let r = m.restrict(m.dom().filter(|x: char| appears(start, m, x)));
            &&& forall|x: char| #[trigger] appears(start, r, x) == appears(start, m, x)
            &&& live_rule_order(start, r) == live_rule_order(start, m)
            &&& symbol_table(start, r) == symbol_table(start, m)
            &&& arena_layout(start, r) == arena_layout(start, m)
        }),
{
    let dead = m.dom().filter(|x: char| !appears(start, m, x));
    m.dom().lemma_len_filter(|x: char| !appears(start, m, x));
    lemma_dead_rules_irrelevant(start, m, dead);
    assert(m.restrict(m.dom().filter(|x: char| appears(start, m, x))) =~= m.remove_keys(dead));
}

/// A grammar compiled from the rules reachable from the start string expands
/// exactly as one compiled from every rule: after any number of steps both
/// give the same symbols, so `expand` and `expand_effects` yield the same
/// bytes.
pub proof fn lemma_unreachable_rules_expand_alike(
    all: CompiledGrammar,
    reachable: CompiledGrammar,
    start: Seq<char>,
    m: Map<char, Seq<char>>,
    n: nat,
)
    requires
        m.dom().finite(),
        fits_symbol_ids(start, m),
        compiled_from(all, start, m),
        compiled_from(reachable, start, m.restrict(m.dom().filter(|x: char| appears(start, m, x)))),
    ensures
        all.arena_bytes() == reachable.arena_bytes(),
        all.start_symbols() == reachable.start_symbols(),
        iterate(reachable.start_symbols(), reachable.rule_map(), n) == iterate(
            all.start_symbols(),
            all.rule_map(),
            n,
        ),
{
    let r = m.restrict(m.dom().filter(|x: char| appears(start, m, x)));
    lemma_unreachable_rules_irrelevant(start, m);
    assert(r.dom() =~= m.dom().filter(|x: char| appears(start, m, x)));
    assert(r.dom().subset_of(m.dom()));
    vstd::set_lib::lemma_len_subset(r.dom(), m.dom());
    lemma_start_appears(start, m);
    lemma_start_appears(start, r);
    lemma_iterate_encoded(all, start, m, start, n);
    lemma_iterate_encoded(reachable, start, r, start, n);
    assert(agrees_on_appearing(start, m, r));
    lemma_iterate_agreeing(start, m, r, start, n);
}

spec fn out_of(effects_only: bool, s: Seq<u8>) -> Seq<u8> {
    if effects_only {
        effects_of(s)
    } else {
        s
    }
}

spec fn frame_span(arena: Seq<u8>, f: Frame) -> Seq<u8> {
    arena.subrange(f.pos as int, f.end as int)
}

spec fn frame_out(arena: Seq<u8>, rules: Map<u8, Seq<u8>>, effects_only: bool, f: Frame) -> Seq<
    u8,
> {
    out_of(effects_only, iterate(frame_span(arena, f), rules, f.depth as nat))
}

/// Output still owed by a stack of frames, topmost frame first.
spec fn stack_out(arena: Seq<u8>, rules: Map<u8, Seq<u8>>, effects_only: bool, st: Seq<Frame>) -> Seq<
    u8,
>
    decreases st.len(),
{
    if st.len() == 0 {
        Seq::empty()
    } else {
        frame_out(arena, rules, effects_only, st.last()) + stack_out(
            arena,
            rules,
            effects_only,
            st.drop_last(),
        )
    }
}

/// Size of the derivation tree below `s` expanded `d` times: one unit per
/// emitted symbol and two per rule application.
spec fn work(s: Seq<u8>, d: nat, rules: Map<u8, Seq<u8>>) -> nat
    decreases d, s.len(),
{
    if s.len() == 0 {
        0
    } else {
        (if d > 0 && rules.contains_key(s[0]) {
            2 + work(rules[s[0]], (d - 1) as nat, rules)
        } else {
            1nat
        }) + work(s.drop_first(), d, rules)
    }
}

spec fn stack_work(arena: Seq<u8>, rules: Map<u8, Seq<u8>>, st: Seq<Frame>) -> nat
    decreases st.len(),
{
    if st.len() == 0 {
        0
    } else {
        1 + work(frame_span(arena, st.last()), st.last().depth as nat, rules) + stack_work(
            arena,
            rules,
            st.drop_last(),
        )
    }
}

proof fn lemma_work_depth_zero(s: Seq<u8>, rules: Map<u8, Seq<u8>>)
    ensures
        work(s, 0, rules) == s.len(),
    decreases s.len(),
{
    if s.len() > 0 {
        lemma_work_depth_zero(s.drop_first(), rules);
    }
}

proof fn lemma_out_of_concat(effects_only: bool, a: Seq<u8>, b: Seq<u8>)
    ensures
        out_of(effects_only, a + b) == out_of(effects_only, a) + out_of(effects_only, b),
{
    if effects_only {
        lemma_keep_only_concat(a, b, effect_filter());
    }
}


/// Dropping an exhausted top frame changes neither the owed output nor
/// increases the work measure.
proof fn lemma_step_pop_empty(arena: Seq<u8>, rules: Map<u8, Seq<u8>>, eff: bool, st: Seq<Frame>)
    requires
        st.len() > 0,
        st.last().pos == st.last().end,
        st.last().end <= arena.len(),
    ensures
        stack_out(arena, rules, eff, st) == stack_out(arena, rules, eff, st.drop_last()),
        stack_work(arena, rules, st.drop_last()) < stack_work(arena, rules, st),
{
    let top = st.last();
    assert(frame_span(arena, top) =~= Seq::<u8>::empty());
    lemma_iterate_empty(rules, top.depth as nat);
    if eff {
        lemma_keep_only_all_kept(Seq::<u8>::empty(), effect_filter());
    }
    assert(frame_out(arena, rules, eff, top) =~= Seq::<u8>::empty());
    assert(stack_out(arena, rules, eff, st) =~= stack_out(arena, rules, eff, st.drop_last()));
}

/// A depth-0 top frame owes exactly its span.
proof fn lemma_step_terminal(arena: Seq<u8>, rules: Map<u8, Seq<u8>>, eff: bool, st: Seq<Frame>)
    requires
        st.len() > 0,
        st.last().depth == 0,
        eff ==> all_kept(frame_span(arena, st.last()), effect_filter()),
    ensures
        stack_out(arena, rules, eff, st) == frame_span(arena, st.last()) + stack_out(
            arena,
            rules,
            eff,
            st.drop_last(),
        ),
{
    let fs = frame_span(arena, st.last());
    assert(iterate(fs, rules, 0) == fs);
    if eff {
        lemma_keep_only_all_kept(fs, effect_filter());
    }
}

/// Reading the first symbol of the top frame splits off that symbol's expansion.
proof fn lemma_step_advance(
    arena: Seq<u8>,
    rules: Map<u8, Seq<u8>>,
    eff: bool,
    st: Seq<Frame>,
    advanced: Frame,
)
    requires
        st.len() > 0,
        st.last().pos < st.last().end <= arena.len(),
        st.last().depth > 0,
        advanced == (Frame { pos: (st.last().pos + 1) as usize, ..st.last() }),
    ensures
        ({
            let byte = arena[st.last().pos as int];
            let d = st.last().depth as nat;
            let st1 = st.update(st.len() - 1, advanced);
            &&& stack_out(arena, rules, eff, st) == out_of(eff, iterate(seq![byte], rules, d))
                + stack_out(arena, rules, eff, st1)
            &&& stack_work(arena, rules, st) == (if rules.contains_key(byte) {
                2 + work(rules[byte], (d - 1) as nat, rules)
            } else {
                1nat
            }) + stack_work(arena, rules, st1)
        }),
{
    let top = st.last();
    let fs = frame_span(arena, top);
    let byte = arena[top.pos as int];
    let d = top.depth as nat;
    let st1 = st.update(st.len() - 1, advanced);
    assert(fs[0] == byte);
    assert(frame_span(arena, advanced) =~= fs.drop_first());
    lemma_iterate_first(fs, rules, d);
    lemma_out_of_concat(eff, iterate(seq![byte], rules, d), iterate(fs.drop_first(), rules, d));
    assert(st1.drop_last() =~= st.drop_last());
    assert(st1.last() == advanced);
}

/// Pushing the frame for a rule's right-hand side owes exactly that
/// right-hand side's expansion and costs less work than the rule application.
proof fn lemma_step_push(
    arena: Seq<u8>,
    rules: Map<u8, Seq<u8>>,
    eff: bool,
    st1: Seq<Frame>,
    rhs: Seq<u8>,
    child: Frame,
)
    requires
        child.pos <= child.end <= arena.len(),
        (eff && child.depth == 0) ==> frame_span(arena, child) == effects_of(rhs),
        !(eff && child.depth == 0) ==> frame_span(arena, child) == rhs,
    ensures
        stack_out(arena, rules, eff, st1.push(child)) == out_of(
            eff,
            iterate(rhs, rules, child.depth as nat),
        ) + stack_out(arena, rules, eff, st1),
        stack_work(arena, rules, st1.push(child)) < 2 + work(rhs, child.depth as nat, rules)
            + stack_work(arena, rules, st1),
{
    let st2 = st1.push(child);
    assert(st2.drop_last() =~= st1);
    assert(st2.last() == child);
    if eff && child.depth == 0 {
        lemma_keep_only_kept(rhs, effect_filter());
        lemma_keep_only_idempotent(rhs, effect_filter());
        lemma_work_depth_zero(rhs, rules);
        lemma_work_depth_zero(frame_span(arena, child), rules);
    }
}

/// Streaming expansion of a compiled grammar.
pub struct ExpandIter {
    grammar: CompiledGrammar,
    effects_only: bool,
    stack: Vec<Frame>,
    terminal_pos: usize,
    terminal_end: usize,
}

spec fn frame_ok(arena: Seq<u8>, effects_only: bool, f: Frame) -> bool {
    &&& f.pos <= f.end <= arena.len()
    &&& (effects_only && f.depth == 0) ==> all_kept(frame_span(arena, f), effect_filter())
}

impl ExpandIter {
    /// Internal consistency of the expansion state.
    pub closed spec fn wf(&self) -> bool {
        &&& self.grammar.wf()
        &&& self.terminal_pos <= self.terminal_end <= self.grammar.arena@.len()
        &&& self.effects_only ==> all_kept(
            span(self.grammar.arena@, (self.terminal_pos, self.terminal_end)),
            effect_filter(),
        )
        &&& forall|i: int|
            0 <= i < self.stack@.len() ==> frame_ok(
                self.grammar.arena@,
                self.effects_only,
                #[trigger] self.stack@[i],
            )
    }

    /// The symbols this expansion has yet to yield, in order.
    pub closed spec fn remaining(&self) -> Seq<u8> {
        span(self.grammar.arena@, (self.terminal_pos, self.terminal_end)) + stack_out(
            self.grammar.arena@,
            self.grammar.rule_map(),
            self.effects_only,
            self.stack@,
        )
    }

    /// Number of pending frames of the depth-first walk.
    pub closed spec fn pending_frames(&self) -> nat {
        self.stack@.len()
    }

    /// Whether no frame of the depth-first walk is pending.
    pub fn stack_is_empty(&self) -> (r: bool)
        ensures
            r == (self.pending_frames() == 0),
    {
        self.stack.len() == 0
    }

    /// Yields the next expanded symbol, or `None` once the expansion is exhausted.
    #[verifier::spinoff_prover]
    #[verifier::rlimit(40)]
    pub fn next(&mut self) -> (ret: Option<u8>)
        requires
            old(self).wf(),
        ensures
            final(self).wf(),
            old(self).remaining().len() == 0 ==> ret is None && final(self).remaining()
                == old(self).remaining(),
            old(self).remaining().len() > 0 ==> ret == Some(old(self).remaining()[0])
                && final(self).remaining() == old(self).remaining().drop_first(),
    {
        if self.terminal_pos < self.terminal_end {
            let byte = self.grammar.arena[self.terminal_pos];
            let ghost arena = self.grammar.arena@;
            let ghost old_span = span(arena, (self.terminal_pos, self.terminal_end));
            self.terminal_pos = self.terminal_pos + 1;
            proof {
                let new_span = span(arena, (self.terminal_pos, self.terminal_end));
                assert(new_span =~= old_span.drop_first());
                assert(old_span[0] == byte);
                if self.effects_only {
                    assert forall|i: int| 0 <= i < new_span.len() implies effect_filter()(
                        #[trigger] new_span[i],
                    ) by {
                        assert(new_span[i] == old_span[i + 1]);
                    }
                }
                let rest = stack_out(
                    arena,
                    self.grammar.rule_map(),
                    self.effects_only,
                    self.stack@,
                );
                assert((old_span + rest).drop_first() =~= new_span + rest);
            }
            return Some(byte);
        }
        let ghost r0 = self.remaining();
        let ghost arena = self.grammar.arena@;
        let ghost rules = self.grammar.rule_map();
        let ghost eff = self.effects_only;
        assert(span(arena, (self.terminal_pos, self.terminal_end)) =~= Seq::<u8>::empty());
        assert(r0 =~= stack_out(arena, rules, eff, self.stack@));
        loop
            invariant
                self.wf(),
                self.terminal_pos == self.terminal_end,
                self.grammar.arena@ == arena,
                self.grammar.rule_map() == rules,
                self.effects_only == eff,
                stack_out(arena, rules, eff, self.stack@) == r0,
                old(self).remaining() == r0,
            decreases stack_work(arena, rules, self.stack@),
        {
            let n = self.stack.len();
            if n == 0 {
                proof {
                    assert(span(arena, (self.terminal_pos, self.terminal_end)) =~= Seq::<
                        u8,
                    >::empty());
                    assert(stack_out(arena, rules, eff, self.stack@) =~= Seq::<u8>::empty());
                    assert(self.remaining() =~= r0);
                    assert(r0.len() == 0);
                }
                return None;
            }
            let top = self.stack[n - 1];
            let ghost st = self.stack@;
            proof {
                assert(st.last() == top);
                assert(frame_ok(arena, eff, st[n - 1]));
            }
            if top.pos == top.end {
                self.stack.pop();
                proof {
                    assert(self.stack@ =~= st.drop_last());
                    assert(frame_span(arena, top) =~= Seq::<u8>::empty());
                    lemma_iterate_empty(rules, top.depth as nat);
                    assert(frame_out(arena, rules, eff, top) =~= Seq::<u8>::empty()) by {
                        if eff {
                            assert(effects_of(Seq::<u8>::empty()) =~= Seq::<u8>::empty());
                        }
                    }
                    assert(stack_out(arena, rules, eff, st) =~= stack_out(
                        arena,
                        rules,
                        eff,
                        self.stack@,
                    ));
                    assert forall|i: int| 0 <= i < self.stack@.len() implies frame_ok(
                        arena,
                        eff,
                        #[trigger] self.stack@[i],
                    ) by {
                        assert(self.stack@[i] == st[i]);
                    }
                }
                continue ;
            }
            if top.depth == 0 {
                let byte = self.grammar.arena[top.pos];
                self.terminal_pos = top.pos + 1;
                self.terminal_end = top.end;
                self.stack.pop();
                proof {
                    let fs = frame_span(arena, top);
                    assert(self.stack@ =~= st.drop_last());
                    assert forall|i: int| 0 <= i < self.stack@.len() implies frame_ok(
                        arena,
                        eff,
                        #[trigger] self.stack@[i],
                    ) by {
                        assert(self.stack@[i] == st[i]);
                    }
                    assert(iterate(fs, rules, 0) == fs);
                    if eff {
                        lemma_keep_only_all_kept(fs, effect_filter());
                    }
                    assert(frame_out(arena, rules, eff, top) == fs);
                    let new_span = span(arena, (self.terminal_pos, self.terminal_end));
                    assert(new_span =~= fs.drop_first());
                    assert(fs[0] == byte);
                    if eff {
                        assert forall|i: int| 0 <= i < new_span.len() implies effect_filter()(
                            #[trigger] new_span[i],
                        ) by {
                            assert(new_span[i] == fs[i + 1]);
                        }
                    }
                    let rest = stack_out(arena, rules, eff, self.stack@);
                    assert(r0 == fs + rest);
                    assert(fs.len() > 0);
                    assert(r0.len() > 0);
                    assert(r0[0] == byte);
                    assert((fs + rest).drop_first() =~= new_span + rest);
                    assert(self.remaining() == new_span + rest);
                }
                return Some(byte);
            }
            let byte = self.grammar.arena[top.pos];
            let advanced = Frame { pos: top.pos + 1, end: top.end, depth: top.depth };
            self.stack.set(n - 1, advanced);
            let ghost st1 = self.stack@;
            proof {
                let fs = frame_span(arena, top);
                let d = top.depth as nat;
                assert(fs[0] == byte);
                assert(frame_span(arena, advanced) =~= fs.drop_first());
                lemma_iterate_first(fs, rules, d);
                lemma_out_of_concat(
                    eff,
                    iterate(seq![byte], rules, d),
                    iterate(fs.drop_first(), rules, d),
                );
                assert(st1.drop_last() =~= st.drop_last());
                assert(st1.last() == advanced);
                assert forall|i: int| 0 <= i < st1.len() implies frame_ok(
                    arena,
                    eff,
                    #[trigger] st1[i],
                ) by {
                    if i < n - 1 {
                        assert(st1[i] == st[i]);
                    }
                }
                assert(work(fs, d, rules) == (if d > 0 && rules.contains_key(byte) {
                    2 + work(rules[byte], (d - 1) as nat, rules)
                } else {
                    1nat
                }) + work(fs.drop_first(), d, rules));
            }
            match self.grammar.rules[byte as usize] {
                Some(spans) => {
                    // Children entering depth 0 in effects-only mode stream their
                    // span terminally, so they take the filtered copy.
                    let (pos, end) = if top.depth == 1 && self.effects_only {
                        spans.effects
                    } else {
                        spans.full
                    };
                    let child = Frame { pos, end, depth: top.depth - 1 };
                    self.stack.push(child);
                    proof {
                        let d = top.depth as nat;
                        let rhs = rules[byte];
                        assert(self.grammar.rules@[byte as int] is Some);
                        assert(spans_ok(arena, spans));
                        assert(rhs == span(arena, spans.full));
                        lemma_iterate_ruled(byte, rules, d);
                        assert(self.stack@.drop_last() =~= st1);
                        assert(self.stack@.last() == child);
                        if top.depth == 1 && eff {
                            assert(frame_span(arena, child) == effects_of(rhs));
                            lemma_keep_only_kept(rhs, effect_filter());
                            lemma_keep_only_idempotent(rhs, effect_filter());
                            lemma_work_depth_zero(rhs, rules);
                            lemma_work_depth_zero(frame_span(arena, child), rules);
                            assert(frame_out(arena, rules, eff, child) == out_of(
                                eff,
                                iterate(rhs, rules, 0),
                            ));
                        } else {
                            assert(frame_span(arena, child) == rhs);
                        }
                        assert forall|i: int| 0 <= i < self.stack@.len() implies frame_ok(
                            arena,
                            eff,
                            #[trigger] self.stack@[i],
                        ) by {
                            if i < n {
                                assert(self.stack@[i] == st1[i]);
                            }
                        }
                        assert(stack_out(arena, rules, eff, self.stack@) == frame_out(
                            arena,
                            rules,
                            eff,
                            child,
                        ) + stack_out(arena, rules, eff, st1));
                        assert(stack_out(arena, rules, eff, self.stack@) =~= r0);
                        let fs = frame_span(arena, top);
                        assert(stack_work(arena, rules, self.stack@) == 1 + work(
                            frame_span(arena, child),
                            (d - 1) as nat,
                            rules,
                        ) + stack_work(arena, rules, st1));
                        assert(stack_work(arena, rules, st1) == 1 + work(
                            frame_span(arena, advanced),
                            d,
                            rules,
                        ) + stack_work(arena, rules, st.drop_last()));
                        assert(stack_work(arena, rules, st) == 1 + work(fs, d, rules) + stack_work(
                            arena,
                            rules,
                            st.drop_last(),
                        ));
                        assert(work(frame_span(arena, child), (d - 1) as nat, rules) <= work(
                            rhs,
                            (d - 1) as nat,
                            rules,
                        ));
                    }
                    continue ;
                },
                None => {
                    proof {
                        assert(!rules.contains_key(byte));
                        lemma_iterate_unruled(byte, rules, top.depth as nat);
                    }
                    if !self.effects_only || is_effect(byte) {
                        proof {
                            if eff {
                                lemma_keep_only_single(byte, effect_filter());
                                assert(effects_of(seq![byte]) == seq![byte]);
                            }
                            let rest = stack_out(arena, rules, eff, st1);
                            assert(r0 == seq![byte] + rest);
                            assert(r0.len() > 0);
                            assert(r0[0] == byte);
                            assert(span(arena, (self.terminal_pos, self.terminal_end)) =~= Seq::<
                                u8,
                            >::empty());
                            assert(self.remaining() =~= rest);
                            assert((seq![byte] + rest).drop_first() =~= rest);
                        }
                        return Some(byte);
                    }
                    proof {
                        lemma_keep_only_single(byte, effect_filter());
                        assert(effects_of(seq![byte]) == Seq::<u8>::empty());
                        assert(stack_out(arena, rules, eff, st1) =~= r0);
                    }
                },
            }
        }
    }

    /// Appends every remaining symbol to `acc`, consuming the expansion.
    ///
    /// Terminal (depth-0) spans are copied wholesale rather than symbol by symbol.
    pub fn fold_into(self, init: Vec<u8>) -> (res: Vec<u8>)
        requires
            self.wf(),
        ensures
            res@ == init@ + self.remaining(),
    {
        let ghost r_all = self.remaining();
        let ghost acc0 = init@;
        let mut it = self;
        let mut acc = init;
        let ghost arena = it.grammar.arena@;
        let ghost rules = it.grammar.rule_map();
        let ghost eff = it.effects_only;
        let mut p = it.terminal_pos;
        let ghost rest0 = stack_out(arena, rules, eff, it.stack@);
        while p < it.terminal_end
            invariant
                it.wf(),
                it.grammar.arena@ == arena,
                it.terminal_pos <= p <= it.terminal_end,
                r_all == span(arena, (it.terminal_pos, it.terminal_end)) + rest0,
                rest0 == stack_out(arena, rules, eff, it.stack@),
                acc@ == acc0 + arena.subrange(it.terminal_pos as int, p as int),
                acc0 == init@,
                r_all == self.remaining(),
            decreases it.terminal_end - p,
        {
            acc.push(it.grammar.arena[p]);
            p = p + 1;
            proof {
                assert(arena.subrange(it.terminal_pos as int, p as int) =~= arena.subrange(
                    it.terminal_pos as int,
                    (p - 1) as int,
                ).push(arena[p - 1]));
            }
        }
        proof {
            assert(acc@ + rest0 =~= acc0 + r_all);
        }
        loop
            invariant
                it.wf(),
                it.grammar.arena@ == arena,
                it.grammar.rule_map() == rules,
                it.effects_only == eff,
                acc0 == init@,
                r_all == self.remaining(),
                acc@ + stack_out(arena, rules, eff, it.stack@) == acc0 + r_all,
            decreases stack_work(arena, rules, it.stack@),
        {
            let n = it.stack.len();
            if n == 0 {
                proof {
                    assert(stack_out(arena, rules, eff, it.stack@) =~= Seq::<u8>::empty());
                    assert(acc@ =~= acc0 + r_all);
                }
                return acc;
            }
            let top = it.stack[n - 1];
            let ghost st = it.stack@;
            let ghost acc_before = acc@;
            proof {
                assert(st.last() == top);
                assert(frame_ok(arena, eff, st[n - 1]));
            }
            if top.pos == top.end {
                it.stack.pop();
                proof {
                    assert(it.stack@ =~= st.drop_last());
                    lemma_step_pop_empty(arena, rules, eff, st);
                    assert forall|i: int| 0 <= i < it.stack@.len() implies frame_ok(
                        arena,
                        eff,
                        #[trigger] it.stack@[i],
                    ) by {
                        assert(it.stack@[i] == st[i]);
                    }
                }
                continue ;
            }
            if top.depth == 0 {
                let mut q = top.pos;
                while q < top.end
                    invariant
                        it.grammar.arena@ == arena,
                        top.pos <= q <= top.end <= arena.len(),
                        acc@ == acc_before + arena.subrange(top.pos as int, q as int),
                    decreases top.end - q,
                {
                    acc.push(it.grammar.arena[q]);
                    q = q + 1;
                    proof {
                        assert(arena.subrange(top.pos as int, q as int) =~= arena.subrange(
                            top.pos as int,
                            (q - 1) as int,
                        ).push(arena[q - 1]));
                    }
                }
                it.stack.pop();
                proof {
                    assert(it.stack@ =~= st.drop_last());
                    lemma_step_terminal(arena, rules, eff, st);
                    assert forall|i: int| 0 <= i < it.stack@.len() implies frame_ok(
                        arena,
                        eff,
                        #[trigger] it.stack@[i],
                    ) by {
                        assert(it.stack@[i] == st[i]);
                    }
                    assert(acc@ + stack_out(arena, rules, eff, it.stack@) =~= acc0 + r_all);
                }
                continue ;
            }
            let byte = it.grammar.arena[top.pos];
            let advanced = Frame { pos: top.pos + 1, end: top.end, depth: top.depth };
            it.stack.set(n - 1, advanced);
            let ghost st1 = it.stack@;
            proof {
                lemma_step_advance(arena, rules, eff, st, advanced);
                assert(st1 == st.update(n - 1, advanced));
                assert forall|i: int| 0 <= i < st1.len() implies frame_ok(
                    arena,
                    eff,
                    #[trigger] st1[i],
                ) by {
                    if i < n - 1 {
                        assert(st1[i] == st[i]);
                    }
                }
            }
            match it.grammar.rules[byte as usize] {
                Some(spans) => {
                    let (pos, end) = if top.depth == 1 && it.effects_only {
                        spans.effects
                    } else {
                        spans.full
                    };
                    let child = Frame { pos, end, depth: top.depth - 1 };
                    it.stack.push(child);
                    proof {
                        let rhs = rules[byte];
                        assert(it.grammar.rules@[byte as int] is Some);
                        assert(spans_ok(arena, spans));
                        lemma_iterate_ruled(byte, rules, top.depth as nat);
                        lemma_step_push(arena, rules, eff, st1, rhs, child);
                        assert(it.stack@ == st1.push(child));
                        if eff && child.depth == 0 {
                            lemma_keep_only_kept(rhs, effect_filter());
                        }
                        assert forall|i: int| 0 <= i < it.stack@.len() implies frame_ok(
                            arena,
                            eff,
                            #[trigger] it.stack@[i],
                        ) by {
                            if i < n {
                                assert(it.stack@[i] == st1[i]);
                            }
                        }
                        assert(acc@ + stack_out(arena, rules, eff, it.stack@) =~= acc0 + r_all);
                    }
                },
                None => {
                    proof {
                        lemma_iterate_unruled(byte, rules, top.depth as nat);
                        lemma_keep_only_single(byte, effect_filter());
                    }
                    if !it.effects_only || is_effect(byte) {
                        acc.push(byte);
                    }
                    proof {
                        assert(acc@ + stack_out(arena, rules, eff, st1) =~= acc0 + r_all);
                    }
                },
            }
        }
    }

    /// Collects every remaining symbol, consuming the expansion.
    pub fn collect(self) -> (res: Vec<u8>)
        requires
            self.wf(),
        ensures
            res@ == self.remaining(),
    {
        let res = self.fold_into(Vec::new());
        assert(res@ =~= self.remaining());
        res
    }
}

/// `states[i + 1]` is `states[i]` after a call of `next` that yielded
/// `yielded[i]`, for every `i` short of the end of `yielded`.
pub open spec fn next_steps(states: Seq<ExpandIter>, yielded: Seq<u8>) -> bool {
    &&& states.len() == yielded.len() + 1
    &&& forall|i: int|
        0 <= i < yielded.len() ==> #[trigger] states[i].remaining().len() > 0 && yielded[i]
            == states[i].remaining()[0] && states[i + 1].remaining() == states[i].remaining().drop_first()
}

/// Folding an expansion part-way through gives the rest of it: when `next`
/// has been called on the states `states[0]`, `states[1]`, ... in turn and
/// yielded `yielded`, one byte per call, then what it yielded followed by
/// what a fold of the last state adds is everything the first state holds,
/// even where a call stopped inside a span of terminals.
pub proof fn lemma_fold_after_next(states: Seq<ExpandIter>, yielded: Seq<u8>)
    requires
        next_steps(states, yielded),
    ensures
        yielded + states.last().remaining() == states[0].remaining(),
        states.last().remaining() == states[0].remaining().skip(yielded.len() as int),
    decreases yielded.len(),
{
    if yielded.len() > 0 {
        let rest_states = states.drop_first();
        let rest = yielded.drop_first();
        assert forall|i: int| 0 <= i < rest.len() implies #[trigger] rest_states[i].remaining().len() > 0
            && rest[i] == rest_states[i].remaining()[0] && rest_states[i + 1].remaining()
            == rest_states[i].remaining().drop_first() by {
            assert(rest_states[i] == states[i + 1]);
            assert(rest_states[i + 1] == states[i + 2]);
            assert(states[i + 1].remaining().len() > 0);
        }
        assert(next_steps(rest_states, rest));
        lemma_fold_after_next(rest_states, rest);
        assert(states[0].remaining().len() > 0);
        assert(rest_states.last() == states.last());
        assert(rest_states[0] == states[1]);
        assert(yielded =~= seq![yielded[0]] + rest);
        assert(states[0].remaining() =~= seq![yielded[0]] + states[1].remaining());
        assert(yielded + states.last().remaining() =~= seq![yielded[0]] + (rest + rest_states.last().remaining()));
        assert(states[0].remaining().skip(yielded.len() as int) =~= states[1].remaining().skip(rest.len() as int));
    } else {
        assert(yielded + states.last().remaining() =~= states[0].remaining());
        assert(states[0].remaining().skip(0) =~= states[0].remaining());
    }
}

/// Every turtle symbol reaches the turtle and no other symbol does: the
/// effect-only expansion keeps the bytes of `F f + - | [ ]` and of the 3D
/// symbols `& ^ / \` and drops everything else, so a string made of turtle
/// symbols is its own effect-only copy.
pub proof fn lemma_effects_are_turtle_symbols(s: Seq<u8>)
    ensures
        forall|b: u8|
            #[trigger] is_effect_byte(b) <==> (b == 'F' as u8 || b == 'f' as u8 || b == '+' as u8 || b
                == '-' as u8 || b == '|' as u8 || b == '[' as u8 || b == ']' as u8 || b == '&' as u8 || b
                == '^' as u8 || b == '/' as u8 || b == '\\' as u8),
        forall|c: char|
            crate::alphabet::is_universal_terminal(c) || crate::alphabet::is_3d_terminal(c)
                ==> #[trigger] is_effect_byte(c as u8),
        (forall|i: int|
            0 <= i < s.len() ==> {
                let b = #[trigger] s[i];
                b == 'F' as u8 || b == 'f' as u8 || b == '+' as u8 || b == '-' as u8 || b == '|' as u8
                    || b == '[' as u8 || b == ']' as u8 || b == '&' as u8 || b == '^' as u8 || b == '/'
                    as u8 || b == '\\' as u8
            }) ==> effects_of(s) == s,
{
    if forall|i: int|
        0 <= i < s.len() ==> {
            let b = #[trigger] s[i];
            b == 'F' as u8 || b == 'f' as u8 || b == '+' as u8 || b == '-' as u8 || b == '|' as u8
                || b == '[' as u8 || b == ']' as u8 || b == '&' as u8 || b == '^' as u8 || b == '/' as u8
                || b == '\\' as u8
        } {
        assert(all_kept(s, effect_filter()));
        lemma_keep_only_all_kept(s, effect_filter());
    }
}

} // verus!
