//! Laws of the assembly pipeline: what the two passes guarantee about label
//! binding, variable allocation, and which lines can never matter.

use vstd::prelude::*;

use crate::parse::{
    executable_count, last_label_addr, new_symbols, p1_init, p1_run, p1_step, p2_init, p2_run,
    p2_step, spec_assemble, spec_classify, spec_parse_token, spec_tokens, spec_assemble_tokens,
    lemma_spec_tokens_concat, lemma_p1_run_concat, lemma_p2_run_concat, reserved_table, P1State,
    P2State, SpecAValue, SpecError, SpecPre,
};

verus! {

/// The output is a function of the kept tokens alone: two sources that
/// classify to the same tokens assemble to the same result.
pub proof fn lemma_assemble_tokens_only(l1: Seq<Seq<char>>, l2: Seq<Seq<char>>)
    requires
        spec_tokens(l1) == spec_tokens(l2),
    ensures
        spec_assemble(l1) == spec_assemble(l2),
{
}

/// Adding a blank line or a `//` comment line anywhere leaves the assembled
/// output unchanged, wherever it is inserted.
pub proof fn lemma_skip_line_transparent(a: Seq<Seq<char>>, b: Seq<Seq<char>>, skipped: Seq<char>)
    requires
        spec_classify(skipped) is None,
    ensures
        spec_assemble(a + seq![skipped] + b) == spec_assemble(a + b),
{
    assert(seq![skipped].drop_last() =~= Seq::<Seq<char>>::empty());
    assert(seq![skipped].last() == skipped);
    assert(spec_tokens(Seq::<Seq<char>>::empty()) == Seq::<Seq<char>>::empty());
    assert(spec_tokens(seq![skipped]) == spec_tokens(seq![skipped].drop_last()) + (
    match spec_classify(seq![skipped].last()) {
        Some(t) => seq![t],
        None => Seq::<Seq<char>>::empty(),
    }));
    assert(spec_tokens(seq![skipped]) =~= Seq::<Seq<char>>::empty());
    lemma_spec_tokens_concat(a, seq![skipped]);
    lemma_spec_tokens_concat(a + seq![skipped], b);
    lemma_spec_tokens_concat(a, b);
    assert(spec_tokens(a + seq![skipped] + b) =~= spec_tokens(a + b));
}

/// After the first pass, every declared label is bound to the ROM address of
/// its last declaration, whatever the table held before: a user declaration
/// with a reserved name overrides the reserved binding. A name never declared
/// keeps its incoming binding.
pub proof fn lemma_label_binding(toks: Seq<Seq<char>>, st: P1State, name: Seq<char>)
    requires
        p1_run(toks, st) is Ok,
    ensures
        ({
            let r = p1_run(toks, st)->Ok_0;
            &&& r.rom == st.rom + executable_count(toks)
            &&& match last_label_addr(toks, name) {
                Some(a) => r.table.contains_key(name) && r.table[name] == st.rom + a,
                None => (r.table.contains_key(name) <==> st.table.contains_key(name))
                    && (st.table.contains_key(name) ==> r.table[name] == st.table[name]),
            }
        }),
    decreases toks.len(),
{
    if toks.len() > 0 {
        lemma_label_binding(toks.drop_last(), st, name);
    }
}

/// Reserved precedence: starting from the preloaded table, a declared label
/// ends up bound to the ROM address of its last declaration, also when its
/// name is a reserved one — the declaration overrides the preload.
pub proof fn lemma_reserved_precedence(toks: Seq<Seq<char>>, name: Seq<char>)
    requires
        p1_run(toks, p1_init(reserved_table())) is Ok,
        last_label_addr(toks, name) is Some,
    ensures
        ({
            let r = p1_run(toks, p1_init(reserved_table()))->Ok_0;
            r.table.contains_key(name) && r.table[name] == last_label_addr(toks, name)->Some_0
        }),
{
    lemma_label_binding(toks, p1_init(reserved_table()), name);
}

/// Variable allocation is monotone: once the second pass is done, the k-th
/// distinct symbol that was referenced in an A-instruction without being
/// bound is bound to address 16 + k, in first-reference order; and the table
/// grew by exactly those symbols.
pub proof fn lemma_variable_allocation(pre: Seq<SpecPre>, table: Map<Seq<char>, nat>)
    requires
        p2_run(pre, p2_init(table)) is Ok,
    ensures
        ({
            let r = p2_run(pre, p2_init(table))->Ok_0;
            let ns = new_symbols(pre, table);
            &&& r.cursor == 16 + ns.len()
            &&& forall|k: int|
                0 <= k < ns.len() ==> r.table.contains_key(#[trigger] ns[k]) && r.table[ns[k]]
                    == 16 + k
            &&& forall|s: Seq<char>|
                #[trigger] r.table.contains_key(s) <==> table.contains_key(s) || ns.contains(s)
        }),
    decreases pre.len(),
{
    if pre.len() > 0 {
        lemma_variable_allocation(pre.drop_last(), table);
        let rp = p2_run(pre.drop_last(), p2_init(table))->Ok_0;
        let nsp = new_symbols(pre.drop_last(), table);
        let ns = new_symbols(pre, table);
        match pre.last() {
            SpecPre::A(SpecAValue::Symbol(sym)) => {
                if !rp.table.contains_key(sym) {
                    assert(!table.contains_key(sym) && !nsp.contains(sym));
                    assert(ns == nsp.push(sym));
                    let r = p2_run(pre, p2_init(table))->Ok_0;
                    assert forall|k: int| 0 <= k < ns.len() implies r.table.contains_key(
                        #[trigger] ns[k],
                    ) && r.table[ns[k]] == 16 + k by {
                        if k < nsp.len() {
                            assert(nsp.contains(nsp[k]));
                            assert(ns[k] == nsp[k]);
                            assert(ns[k] != sym);
                        } else {
                            assert(ns[k] == sym);
                        }
                    }
                    assert forall|s: Seq<char>| #[trigger]
                        r.table.contains_key(s) <==> table.contains_key(s) || ns.contains(
                        s,
                    ) by {
                        if ns.contains(s) {
                            let j = choose|j: int| 0 <= j < ns.len() && ns[j] == s;
                            if j < nsp.len() {
                                assert(nsp.contains(nsp[j]));
                            }
                        }
                        if nsp.contains(s) {
                            let j = choose|j: int| 0 <= j < nsp.len() && nsp[j] == s;
                            assert(ns[j] == s);
                        }
                        if s == sym {
                            assert(ns[ns.len() - 1] == s);
                        }
                    }
                } else {
                    assert(ns == nsp);
                }
            },
            _ => {
                assert(ns == nsp);
            },
        }
    } else {
        assert(new_symbols(pre, table) =~= Seq::<Seq<char>>::empty());
    }
}

/// The first parse failure among the tokens, if any; the first pass stops at
/// it whatever its running state is.
pub open spec fn first_parse_error(toks: Seq<Seq<char>>) -> Option<SpecError>
    decreases toks.len(),
{
    if toks.len() == 0 {
        None
    } else {
        match first_parse_error(toks.drop_last()) {
            Some(e) => Some(e),
            None => match spec_parse_token(toks.last()) {
                Err(e) => Some(e),
                Ok(_) => None,
            },
        }
    }
}

/// The pre-instructions the first pass appends for these tokens; they do not
/// depend on its running state.
pub open spec fn p1_emits(toks: Seq<Seq<char>>) -> Seq<SpecPre>
    decreases toks.len(),
{
    if toks.len() == 0 {
        Seq::empty()
    } else {
        p1_emits(toks.drop_last()) + (match spec_parse_token(toks.last()) {
            Ok(p) => seq![p],
            Err(_) => Seq::<SpecPre>::empty(),
        })
    }
}

/// Whether some token is an A-instruction referencing `name` symbolically.
pub open spec fn references(toks: Seq<Seq<char>>, name: Seq<char>) -> bool {
    exists|i: int|
        0 <= i < toks.len() && spec_parse_token(toks[i]) == Ok::<SpecPre, SpecError>(
            SpecPre::A(SpecAValue::Symbol(name)),
        )
}

/// Two tables that agree everywhere except possibly at `name`.
pub open spec fn agree_except(t1: Map<Seq<char>, nat>, t2: Map<Seq<char>, nat>, name: Seq<char>) -> bool {
    forall|k: Seq<char>|
        k != name ==> ((#[trigger] t1.contains_key(k)) <==> t2.contains_key(k)) && (
        t1.contains_key(k) ==> t1[k] == t2[k])
}

proof fn lemma_p1_decompose(toks: Seq<Seq<char>>, st: P1State)
    ensures
        match first_parse_error(toks) {
            Some(e) => p1_run(toks, st) == Err::<P1State, SpecError>(e),
            None => p1_run(toks, st) is Ok && p1_run(toks, st)->Ok_0.pre == st.pre + p1_emits(
                toks,
            ),
        },
    decreases toks.len(),
{
    if toks.len() == 0 {
        assert(st.pre + p1_emits(toks) =~= st.pre);
    } else {
        lemma_p1_decompose(toks.drop_last(), st);
        if first_parse_error(toks) is None {
            let p = spec_parse_token(toks.last())->Ok_0;
            assert(st.pre + p1_emits(toks) =~= (st.pre + p1_emits(toks.drop_last())).push(p));
        }
    }
}

proof fn lemma_p1_emits_unreferenced(toks: Seq<Seq<char>>, name: Seq<char>)
    requires
        !references(toks, name),
    ensures
        forall|j: int|
            0 <= j < p1_emits(toks).len() ==> #[trigger] p1_emits(toks)[j] != SpecPre::A(
                SpecAValue::Symbol(name),
            ),
    decreases toks.len(),
{
    if toks.len() > 0 {
        let d = toks.drop_last();
        assert(!references(d, name)) by {
            if references(d, name) {
                let i = choose|i: int|
                    0 <= i < d.len() && spec_parse_token(d[i]) == Ok::<SpecPre, SpecError>(
                        SpecPre::A(SpecAValue::Symbol(name)),
                    );
                assert(toks[i] == d[i]);
            }
        }
        lemma_p1_emits_unreferenced(d, name);
        assert forall|j: int| 0 <= j < p1_emits(toks).len() implies #[trigger] p1_emits(toks)[j]
            != SpecPre::A(SpecAValue::Symbol(name)) by {
            if j < p1_emits(d).len() {
                assert(p1_emits(toks)[j] == p1_emits(d)[j]);
            } else {
                assert(spec_parse_token(toks.last()) == Ok::<SpecPre, SpecError>(
                    p1_emits(toks)[j],
                ));
                if p1_emits(toks)[j] == SpecPre::A(SpecAValue::Symbol(name)) {
                    assert(toks[toks.len() - 1] == toks.last());
                }
            }
        }
    }
}

proof fn lemma_p2_agree(pre: Seq<SpecPre>, st1: P2State, st2: P2State, name: Seq<char>)
    requires
        st1.cursor == st2.cursor,
        st1.out == st2.out,
        agree_except(st1.table, st2.table, name),
        forall|j: int|
            0 <= j < pre.len() ==> #[trigger] pre[j] != SpecPre::A(SpecAValue::Symbol(name)),
    ensures
        match (p2_run(pre, st1), p2_run(pre, st2)) {
            (Ok(r1), Ok(r2)) => r1.out == r2.out && r1.cursor == r2.cursor && agree_except(
                r1.table,
                r2.table,
                name,
            ),
            (Err(e1), Err(e2)) => e1 == e2,
            _ => false,
        },
    decreases pre.len(),
{
    if pre.len() > 0 {
        let d = pre.drop_last();
        assert forall|j: int| 0 <= j < d.len() implies #[trigger] d[j] != SpecPre::A(
            SpecAValue::Symbol(name),
        ) by {
            assert(d[j] == pre[j]);
        }
        lemma_p2_agree(d, st1, st2, name);
        if p2_run(d, st1) is Ok && p2_run(d, st2) is Ok {
            let r1 = p2_run(d, st1)->Ok_0;
            let r2 = p2_run(d, st2)->Ok_0;
            match pre.last() {
                SpecPre::A(SpecAValue::Symbol(s)) => {
                    assert(pre[pre.len() - 1] == pre.last());
                    assert(s != name);
                    if !r1.table.contains_key(s) {
                        assert forall|k: Seq<char>|
                            k != name implies ((#[trigger] r1.table.insert(
                            s,
                            r1.cursor,
                        ).contains_key(k)) <==> r2.table.insert(s, r2.cursor).contains_key(k)) && (
                        r1.table.insert(s, r1.cursor).contains_key(k) ==> r1.table.insert(
                            s,
                            r1.cursor,
                        )[k] == r2.table.insert(s, r2.cursor)[k]) by {
                            if k != s {
                                assert(r1.table.contains_key(k) <==> r2.table.contains_key(k));
                            }
                        }
                    }
                },
                _ => {},
            }
        }
    }
}

/// Label transparency: inserting a label declaration between any two runs of
/// lines leaves the assembled output unchanged, as long as no A-instruction
/// references the declared name. (When the name is referenced, only the
/// numeric value those references resolve to can change.)
pub proof fn lemma_label_transparency(
    a: Seq<Seq<char>>,
    b: Seq<Seq<char>>,
    lab: Seq<char>,
    name: Seq<char>,
)
    requires
        spec_parse_token(lab) == Ok::<SpecPre, SpecError>(SpecPre::L(name)),
        !references(a, name),
        !references(b, name),
    ensures
        spec_assemble_tokens(a + seq![lab] + b) == spec_assemble_tokens(a + b),
{
    let st0 = p1_init(reserved_table());
    lemma_p1_run_concat(a + seq![lab], b, st0);
    lemma_p1_run_concat(a, seq![lab], st0);
    lemma_p1_run_concat(a, b, st0);
    match p1_run(a, st0) {
        Err(_) => {},
        Ok(sa) => {
            assert(seq![lab].drop_last() =~= Seq::<Seq<char>>::empty());
            assert(seq![lab].last() == lab);
            assert(p1_run(seq![lab].drop_last(), sa) == Ok::<P1State, SpecError>(sa));
            assert(p1_run(seq![lab], sa) == p1_step(sa, lab));
            let sa2 = p1_step(sa, lab)->Ok_0;
            assert(sa2.table == sa.table.insert(name, sa.rom) && sa2.rom == sa.rom && sa2.pre
                == sa.pre.push(SpecPre::L(name)));
            lemma_p1_decompose(b, sa2);
            lemma_p1_decompose(b, sa);
            match first_parse_error(b) {
                Some(_) => {},
                None => {
                    let r2 = p1_run(b, sa2)->Ok_0;
                    let r = p1_run(b, sa)->Ok_0;
                    // The tables after the first pass agree off the label's name.
                    assert forall|k: Seq<char>|
                        k != name implies ((#[trigger] r2.table.contains_key(k))
                        <==> r.table.contains_key(k)) && (r2.table.contains_key(k)
                        ==> r2.table[k] == r.table[k]) by {
                        lemma_label_binding(b, sa2, k);
                        lemma_label_binding(b, sa, k);
                    }
                    // The first pass's output differs only by the skipped label entry.
                    let emits = p1_emits(b);
                    assert(r2.pre == sa.pre.push(SpecPre::L(name)) + emits);
                    assert(r2.pre =~= (sa.pre + seq![SpecPre::L(name)]) + emits);
                    assert(r.pre =~= sa.pre + emits);
                    // The second pass skips the label entry.
                    let init2 = p2_init(r2.table);
                    let init = p2_init(r.table);
                    lemma_p2_run_concat(sa.pre + seq![SpecPre::L(name)], emits, init2);
                    lemma_p2_run_concat(sa.pre, seq![SpecPre::L(name)], init2);
                    assert(seq![SpecPre::L(name)].drop_last() =~= Seq::<SpecPre>::empty());
                    assert(seq![SpecPre::L(name)].last() == SpecPre::L(name));
                    match p2_run(sa.pre, init2) {
                        Err(_) => {},
                        Ok(s) => {
                            assert(p2_run(seq![SpecPre::L(name)].drop_last(), s) == Ok::<
                                P2State,
                                SpecError,
                            >(s));
                            assert(p2_run(seq![SpecPre::L(name)], s) == p2_step(
                                s,
                                SpecPre::L(name),
                            ));
                            assert(p2_step(s, SpecPre::L(name)) == Ok::<P2State, SpecError>(s));
                        },
                    }
                    assert(p2_run(sa.pre + seq![SpecPre::L(name)], init2) == p2_run(
                        sa.pre,
                        init2,
                    ));
                    lemma_p2_run_concat(sa.pre, emits, init2);
                    assert(p2_run(r2.pre, init2) == p2_run(sa.pre + emits, init2));
                    // And resolves identically under tables that agree off the name.
                    lemma_p1_decompose(a, st0);
                    lemma_p1_emits_unreferenced(a, name);
                    lemma_p1_emits_unreferenced(b, name);
                    assert(sa.pre =~= p1_emits(a));
                    assert forall|j: int|
                        0 <= j < (sa.pre + emits).len() implies #[trigger] (sa.pre + emits)[j]
                        != SpecPre::A(SpecAValue::Symbol(name)) by {
                        if j < sa.pre.len() {
                            assert((sa.pre + emits)[j] == p1_emits(a)[j]);
                        } else {
                            assert((sa.pre + emits)[j] == emits[j - sa.pre.len()]);
                        }
                    }
                    lemma_p2_agree(sa.pre + emits, init2, init, name);
                },
            }
        },
    }
}

/// Label transparency at the source level: inserting a label declaration line
/// between any two runs of lines leaves the assembled output unchanged, as
/// long as no A-instruction references the declared name.
pub proof fn lemma_label_line_transparency(
    a: Seq<Seq<char>>,
    b: Seq<Seq<char>>,
    lab_line: Seq<char>,
    name: Seq<char>,
)
    requires
        match spec_classify(lab_line) {
            Some(t) => spec_parse_token(t) == Ok::<SpecPre, SpecError>(SpecPre::L(name)),
            None => false,
        },
        !references(spec_tokens(a), name),
        !references(spec_tokens(b), name),
    ensures
        spec_assemble(a + seq![lab_line] + b) == spec_assemble(a + b),
{
    let lab = spec_classify(lab_line)->Some_0;
    assert(seq![lab_line].drop_last() =~= Seq::<Seq<char>>::empty());
    assert(seq![lab_line].last() == lab_line);
    assert(spec_tokens(Seq::<Seq<char>>::empty()) == Seq::<Seq<char>>::empty());
    assert(spec_tokens(seq![lab_line]) =~= seq![lab]);
    lemma_spec_tokens_concat(a, seq![lab_line]);
    lemma_spec_tokens_concat(a + seq![lab_line], b);
    lemma_spec_tokens_concat(a, b);
    assert(spec_tokens(a + seq![lab_line] + b) =~= spec_tokens(a) + seq![lab] + spec_tokens(b));
    lemma_label_transparency(spec_tokens(a), spec_tokens(b), lab, name);
}

} // verus!
