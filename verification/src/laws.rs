//! Laws of the transpiler, stated over the models of [`crate::ast`] and
//! proved from the spec functions that the executable functions are
//! verified against.

use vstd::prelude::*;
use crate::ast::DeclM;
use crate::ast::PropM;
use crate::ast::QualM;
use crate::ast::AtM;
use crate::transpiler::at_block_for;
use crate::transpiler::at_group;
use crate::transpiler::at_keys;
use crate::transpiler::at_merged_opt;
use crate::transpiler::at_stmts_for;
use crate::transpiler::ats_of;
use crate::transpiler::merge_model;
use crate::transpiler::merge_values;
use crate::transpiler::nest_kw;
use crate::transpiler::push_at;
use crate::transpiler::qual_block_for;
use crate::transpiler::qual_keys;
use crate::transpiler::quals_of;
use crate::transpiler::subst;
use crate::transpiler::trans_at;
use crate::transpiler::trans_list;
use crate::transpiler::transpile_result;
use crate::transpiler::wrap_rules;
use crate::transpiler::TranspiledCss;
use crate::transpiler::decls_str;

verus! {

/// Each declaration of an all-property list as its own selector-closed
/// rule, in order: what the flattening walk emits before merging.
pub open spec fn single_rules(sels: Seq<Seq<char>>, ds: Seq<DeclM>) -> Seq<DeclM>
    decreases ds.len(),
{
    if ds.len() == 0 {
        Seq::<DeclM>::empty()
    } else {
        seq![DeclM::Qual(QualM { sels, block: seq![ds[0]] })] + single_rules(
            sels,
            ds.drop_first(),
        )
    }
}

proof fn lemma_single_rules_snoc(sels: Seq<Seq<char>>, ds: Seq<DeclM>)
    requires
        ds.len() > 0,
    ensures
        single_rules(sels, ds) == single_rules(sels, ds.drop_last()).push(
            DeclM::Qual(QualM { sels, block: seq![ds.last()] }),
        ),
    decreases ds.len(),
{
    if ds.len() == 1 {
        assert(ds.drop_last() =~= Seq::<DeclM>::empty());
        assert(single_rules(sels, ds.drop_first()) =~= Seq::<DeclM>::empty());
        assert(single_rules(sels, ds.drop_last()) =~= Seq::<DeclM>::empty());
        assert(single_rules(sels, ds) =~= single_rules(sels, ds.drop_last()).push(
            DeclM::Qual(QualM { sels, block: seq![ds.last()] }),
        ));
    } else {
        lemma_single_rules_snoc(sels, ds.drop_first());
        assert(ds.drop_first().drop_last() =~= ds.drop_last().drop_first());
        assert(ds.drop_first().last() == ds.last());
        assert(ds.drop_last()[0] == ds[0]);
        assert(single_rules(sels, ds) =~= single_rules(sels, ds.drop_last()).push(
            DeclM::Qual(QualM { sels, block: seq![ds.last()] }),
        ));
    }
}

proof fn lemma_trans_props(sels: Seq<Seq<char>>, ds: Seq<DeclM>)
    requires
        forall|i: int| 0 <= i < ds.len() ==> ds[i] is Prop,
    ensures
        trans_list(sels, Seq::<(Seq<char>, Seq<char>)>::empty(), ds, false) == single_rules(
            sels,
            ds,
        ),
    decreases ds.len(),
{
    let ats = Seq::<(Seq<char>, Seq<char>)>::empty();
    if ds.len() > 0 {
        assert(ds[0] is Prop);
        lemma_trans_props(sels, ds.drop_first());
        match ds[0] {
            DeclM::Prop(p) => {
                assert(wrap_rules(ats, DeclM::Qual(QualM { sels, block: seq![DeclM::Prop(p)] }))
                    == DeclM::Qual(QualM { sels, block: seq![ds[0]] }));
            },
            _ => {},
        }
    }
}

proof fn lemma_merge_singles(sels: Seq<Seq<char>>, ds: Seq<DeclM>)
    requires
        ds.len() > 0,
    ensures
        qual_keys(single_rules(sels, ds)) == seq![sels],
        at_keys(single_rules(sels, ds)) == Seq::<(Seq<char>, Seq<char>)>::empty(),
        qual_block_for(single_rules(sels, ds), sels) == ds,
    decreases ds.len(),
{
    let sr = single_rules(sels, ds);
    lemma_single_rules_snoc(sels, ds);
    let last_rule = DeclM::Qual(QualM { sels, block: seq![ds.last()] });
    reveal_with_fuel(single_rules, 3);
    reveal_with_fuel(qual_keys, 3);
    reveal_with_fuel(at_keys, 3);
    reveal_with_fuel(qual_block_for, 3);
    if ds.len() == 1 {
        assert(ds.drop_first() =~= ds.drop_last());
        assert(single_rules(sels, ds.drop_last()) =~= Seq::<DeclM>::empty());
        assert(sr.drop_last() =~= Seq::<DeclM>::empty());
        assert(sr.last() == last_rule);
        assert(qual_keys(sr.drop_last()) =~= Seq::<Seq<Seq<char>>>::empty());
        assert(qual_keys(sr) =~= seq![sels]);
        assert(at_keys(sr) =~= Seq::<(Seq<char>, Seq<char>)>::empty());
        assert(qual_block_for(sr.drop_last(), sels) =~= Seq::<DeclM>::empty());
        assert(qual_block_for(sr, sels) =~= ds);
    } else {
        let sr0 = single_rules(sels, ds.drop_last());
        lemma_merge_singles(sels, ds.drop_last());
        assert(sr.drop_last() =~= sr0);
        assert(sr.last() == last_rule);
        assert(qual_keys(sr0).contains(sels)) by {
            assert(qual_keys(sr0)[0] == sels);
        }
        assert(qual_keys(sr) =~= seq![sels]);
        assert(at_keys(sr) =~= Seq::<(Seq<char>, Seq<char>)>::empty());
        assert(qual_block_for(sr, sels) =~= ds.drop_last() + seq![ds.last()]);
        assert(ds.drop_last() + seq![ds.last()] =~= ds);
    }
}

/// For an input consisting solely of top-level properties, transpilation
/// yields exactly one qualified rule: its selector group is the given root
/// group and its block holds the properties in their original order.
pub proof fn law_flat_properties(sels: Seq<Seq<char>>, ds: Seq<DeclM>)
    requires
        ds.len() > 0,
        forall|i: int| 0 <= i < ds.len() ==> ds[i] is Prop,
    ensures
        transpile_result(sels, ds) == seq![DeclM::Qual(QualM { sels, block: ds })],
{
    reveal_with_fuel(quals_of, 3);
    reveal_with_fuel(ats_of, 3);
    lemma_trans_props(sels, ds);
    lemma_merge_singles(sels, ds);
    let sr = single_rules(sels, ds);
    let ks = seq![sels];
    assert(ks[0] == sels);
    assert(ks.drop_first() =~= Seq::<Seq<Seq<char>>>::empty());
    assert(quals_of(sr, ks.drop_first()) =~= Seq::<DeclM>::empty());
    assert(quals_of(sr, ks) =~= seq![DeclM::Qual(QualM { sels, block: ds })]);
    assert(ats_of(sr, Seq::<(Seq<char>, Seq<char>)>::empty()) =~= Seq::<DeclM>::empty());
    assert(merge_model(sr) =~= seq![DeclM::Qual(QualM { sels, block: ds })]);
}

/// The parent-selector reference substitutes textually: a bare `&` resolves
/// to the parent selector expression unchanged, and `&&` to its literal
/// concatenation with itself, not to a deduplicated form.
pub proof fn law_parent_reference(p: Seq<char>)
    ensures
        subst("&"@, p) == p,
        subst("&&"@, p) == p + p,
{
    reveal_strlit("&");
    reveal_strlit("&&");
    assert("&"@.drop_first() =~= Seq::<char>::empty());
    assert(subst(Seq::<char>::empty(), p) =~= Seq::<char>::empty());
    assert(p + Seq::<char>::empty() =~= p);
    assert("&&"@.drop_first() =~= "&"@);
    assert(subst("&"@, p) =~= p);
    assert(p + (p + Seq::<char>::empty()) =~= p + p);
}

/// Serialization is a pure function of the flat rules: two outputs with
/// the same model render to the same text.
pub proof fn law_serialize_deterministic(a: TranspiledCss, b: TranspiledCss)
    requires
        a.model() == b.model(),
    ensures
        decls_str(a.model()) == decls_str(b.model()),
{
}

/// Two rules sharing an identical post-substitution selector group are
/// combined into one rule whose block concatenates theirs in first-to-last
/// order.
pub proof fn law_merge_by_selector(k: Seq<Seq<char>>, b1: Seq<DeclM>, b2: Seq<DeclM>)
    ensures
        merge_model(
            seq![
                DeclM::Qual(QualM { sels: k, block: b1 }),
                DeclM::Qual(QualM { sels: k, block: b2 }),
            ],
        ) == seq![DeclM::Qual(QualM { sels: k, block: b1 + b2 })],
{
    reveal_with_fuel(qual_keys, 4);
    reveal_with_fuel(at_keys, 4);
    reveal_with_fuel(qual_block_for, 4);
    reveal_with_fuel(quals_of, 3);
    reveal_with_fuel(ats_of, 3);
    let r1 = DeclM::Qual(QualM { sels: k, block: b1 });
    let r2 = DeclM::Qual(QualM { sels: k, block: b2 });
    let rs = seq![r1, r2];
    let rs1 = seq![r1];
    assert(rs.drop_last() =~= rs1);
    assert(rs1.drop_last() =~= Seq::<DeclM>::empty());
    assert(qual_keys(rs1) =~= seq![k]);
    assert(qual_keys(rs1).contains(k)) by {
        assert(qual_keys(rs1)[0] == k);
    }
    assert(qual_keys(rs) =~= seq![k]);
    assert(at_keys(rs1) =~= Seq::<(Seq<char>, Seq<char>)>::empty());
    assert(at_keys(rs) =~= Seq::<(Seq<char>, Seq<char>)>::empty());
    assert(qual_block_for(rs1, k) =~= Seq::<DeclM>::empty() + b1);
    assert(Seq::<DeclM>::empty() + b1 =~= b1);
    assert(qual_block_for(rs, k) == b1 + b2);
    let ks = seq![k];
    assert(ks.drop_first() =~= Seq::<Seq<Seq<char>>>::empty());
    assert(quals_of(rs, ks.drop_first()) =~= Seq::<DeclM>::empty());
    assert(quals_of(rs, ks) =~= seq![DeclM::Qual(QualM { sels: k, block: b1 + b2 })]);
    assert(ats_of(rs, Seq::<(Seq<char>, Seq<char>)>::empty()) =~= Seq::<DeclM>::empty());
    assert(merge_model(rs) =~= seq![DeclM::Qual(QualM { sels: k, block: b1 + b2 })]);
}

/// As [`law_merge_by_selector`], with an unrelated rule standing between
/// the two: the merged rule keeps the first-seen position of its key, and
/// the unrelated rule follows.
pub proof fn law_merge_by_selector_separated(
    k: Seq<Seq<char>>,
    b1: Seq<DeclM>,
    k2: Seq<Seq<char>>,
    bm: Seq<DeclM>,
    b2: Seq<DeclM>,
)
    requires
        k2 != k,
    ensures
        merge_model(
            seq![
                DeclM::Qual(QualM { sels: k, block: b1 }),
                DeclM::Qual(QualM { sels: k2, block: bm }),
                DeclM::Qual(QualM { sels: k, block: b2 }),
            ],
        ) == seq![
            DeclM::Qual(QualM { sels: k, block: b1 + b2 }),
            DeclM::Qual(QualM { sels: k2, block: bm }),
        ],
{
    reveal_with_fuel(qual_keys, 5);
    reveal_with_fuel(at_keys, 5);
    reveal_with_fuel(qual_block_for, 5);
    reveal_with_fuel(quals_of, 4);
    reveal_with_fuel(ats_of, 4);
    let r1 = DeclM::Qual(QualM { sels: k, block: b1 });
    let rm = DeclM::Qual(QualM { sels: k2, block: bm });
    let r2 = DeclM::Qual(QualM { sels: k, block: b2 });
    let rs = seq![r1, rm, r2];
    let rs2 = seq![r1, rm];
    let rs1 = seq![r1];
    assert(rs.drop_last() =~= rs2);
    assert(rs2.drop_last() =~= rs1);
    assert(rs1.drop_last() =~= Seq::<DeclM>::empty());
    assert(qual_keys(rs1) =~= seq![k]);
    assert(!qual_keys(rs1).contains(k2)) by {
        if qual_keys(rs1).contains(k2) {
            let x = choose|x: int|
                0 <= x < qual_keys(rs1).len() && qual_keys(rs1)[x] == k2;
        }
    }
    assert(qual_keys(rs2) =~= seq![k, k2]);
    assert(qual_keys(rs2).contains(k)) by {
        assert(qual_keys(rs2)[0] == k);
    }
    assert(qual_keys(rs) =~= seq![k, k2]);
    assert(at_keys(rs) =~= Seq::<(Seq<char>, Seq<char>)>::empty());
    assert(qual_block_for(rs1, k) =~= b1);
    assert(qual_block_for(rs2, k) =~= b1);
    assert(qual_block_for(rs, k) == qual_block_for(rs2, k) + b2);
    assert(qual_block_for(rs1, k2) =~= Seq::<DeclM>::empty());
    assert(qual_block_for(rs2, k2) =~= bm);
    assert(qual_block_for(rs, k2) =~= bm);
    let ks = seq![k, k2];
    assert(ks.drop_first() =~= seq![k2]);
    assert(seq![k2].drop_first() =~= Seq::<Seq<Seq<char>>>::empty());
    assert(quals_of(rs, Seq::<Seq<Seq<char>>>::empty()) =~= Seq::<DeclM>::empty());
    assert(quals_of(rs, seq![k2]) =~= seq![DeclM::Qual(QualM { sels: k2, block: bm })]);
    assert(quals_of(rs, ks) =~= seq![
        DeclM::Qual(QualM { sels: k, block: b1 + b2 }),
        DeclM::Qual(QualM { sels: k2, block: bm }),
    ]);
    assert(ats_of(rs, Seq::<(Seq<char>, Seq<char>)>::empty()) =~= Seq::<DeclM>::empty());
    assert(merge_model(rs) =~= seq![
        DeclM::Qual(QualM { sels: k, block: b1 + b2 }),
        DeclM::Qual(QualM { sels: k2, block: bm }),
    ]);
}

/// Two sibling nested at-rules of the same name, each holding an inner
/// at-rule of that name again, flatten and merge into a single rule whose
/// value combines the outer and inner values by logical and, and whose
/// block holds both inner property rules in source order.
pub proof fn law_at_rule_merge(
    sels: Seq<Seq<char>>,
    n: Seq<char>,
    va: Seq<char>,
    vb: Seq<char>,
    p1: PropM,
    p2: PropM,
)
    requires
        n != nest_kw(),
    ensures
        ({
            let inner1 = DeclM::At(
                AtM { name: n, value: vb, block: Option::Some(seq![DeclM::Prop(p1)]) },
            );
            let inner2 = DeclM::At(
                AtM { name: n, value: vb, block: Option::Some(seq![DeclM::Prop(p2)]) },
            );
            let outer1 = DeclM::At(AtM { name: n, value: va, block: Option::Some(seq![inner1]) });
            let outer2 = DeclM::At(AtM { name: n, value: va, block: Option::Some(seq![inner2]) });
            transpile_result(sels, seq![outer1, outer2]) == seq![
                DeclM::At(
                    AtM {
                        name: n,
                        value: merge_values(va, vb),
                        block: Option::Some(
                            seq![
                                DeclM::Qual(QualM { sels, block: seq![DeclM::Prop(p1)] }),
                                DeclM::Qual(QualM { sels, block: seq![DeclM::Prop(p2)] }),
                            ],
                        ),
                    },
                ),
            ]
        }),
{
    reveal_with_fuel(trans_list, 4);
    reveal_with_fuel(wrap_rules, 3);
    reveal_with_fuel(qual_keys, 4);
    reveal_with_fuel(at_keys, 4);
    reveal_with_fuel(at_stmts_for, 4);
    reveal_with_fuel(at_block_for, 4);
    reveal_with_fuel(quals_of, 3);
    reveal_with_fuel(ats_of, 3);
    let ats0 = Seq::<(Seq<char>, Seq<char>)>::empty();
    let mv = merge_values(va, vb);
    let inner1 = DeclM::At(AtM { name: n, value: vb, block: Option::Some(seq![DeclM::Prop(p1)]) });
    let inner2 = DeclM::At(AtM { name: n, value: vb, block: Option::Some(seq![DeclM::Prop(p2)]) });
    let outer1 = DeclM::At(AtM { name: n, value: va, block: Option::Some(seq![inner1]) });
    let outer2 = DeclM::At(AtM { name: n, value: va, block: Option::Some(seq![inner2]) });
    let q1 = DeclM::Qual(QualM { sels, block: seq![DeclM::Prop(p1)] });
    let q2 = DeclM::Qual(QualM { sels, block: seq![DeclM::Prop(p2)] });
    let f1 = DeclM::At(AtM { name: n, value: mv, block: Option::Some(seq![q1]) });
    let f2 = DeclM::At(AtM { name: n, value: mv, block: Option::Some(seq![q2]) });

    // The at-rule stack after the outer and the inner at-rule.
    assert(push_at(ats0, n, va) =~= seq![(n, va)]);
    assert(push_at(seq![(n, va)], n, vb) =~= seq![(n, mv)]);

    // The walk turns each property into one rule wrapped in the merged
    // at-rule.
    assert(wrap_rules(seq![(n, mv)], q1) == f1) by {
        assert(seq![(n, mv)].drop_last() =~= Seq::<(Seq<char>, Seq<char>)>::empty());
    }
    assert(wrap_rules(seq![(n, mv)], q2) == f2) by {
        assert(seq![(n, mv)].drop_last() =~= Seq::<(Seq<char>, Seq<char>)>::empty());
    }
    assert(trans_list(sels, seq![(n, mv)], seq![DeclM::Prop(p1)], false) =~= seq![f1]) by {
        assert(seq![DeclM::Prop(p1)].drop_first() =~= Seq::<DeclM>::empty());
        assert(trans_list(sels, seq![(n, mv)], Seq::<DeclM>::empty(), false)
            =~= Seq::<DeclM>::empty());
    }
    assert(trans_list(sels, seq![(n, mv)], seq![DeclM::Prop(p2)], false) =~= seq![f2]) by {
        assert(seq![DeclM::Prop(p2)].drop_first() =~= Seq::<DeclM>::empty());
        assert(trans_list(sels, seq![(n, mv)], Seq::<DeclM>::empty(), false)
            =~= Seq::<DeclM>::empty());
    }
    match inner1 {
        DeclM::At(a) => {
            assert(trans_at(sels, seq![(n, va)], a) =~= seq![f1]);
        },
        _ => {},
    }
    match inner2 {
        DeclM::At(a) => {
            assert(trans_at(sels, seq![(n, va)], a) =~= seq![f2]);
        },
        _ => {},
    }
    assert(trans_list(sels, seq![(n, va)], seq![inner1], false) =~= seq![f1]) by {
        assert(seq![inner1].drop_first() =~= Seq::<DeclM>::empty());
        assert(trans_list(sels, seq![(n, va)], Seq::<DeclM>::empty(), true)
            =~= Seq::<DeclM>::empty());
        assert(seq![f1] + Seq::<DeclM>::empty() =~= seq![f1]);
    }
    assert(trans_list(sels, seq![(n, va)], seq![inner2], false) =~= seq![f2]) by {
        assert(seq![inner2].drop_first() =~= Seq::<DeclM>::empty());
        assert(trans_list(sels, seq![(n, va)], Seq::<DeclM>::empty(), true)
            =~= Seq::<DeclM>::empty());
        assert(seq![f2] + Seq::<DeclM>::empty() =~= seq![f2]);
    }
    match outer1 {
        DeclM::At(a) => {
            assert(trans_at(sels, ats0, a) =~= seq![f1]);
        },
        _ => {},
    }
    match outer2 {
        DeclM::At(a) => {
            assert(trans_at(sels, ats0, a) =~= seq![f2]);
        },
        _ => {},
    }
    let ds = seq![outer1, outer2];
    assert(ds.drop_first() =~= seq![outer2]);
    assert(seq![outer2].drop_first() =~= Seq::<DeclM>::empty());
    assert(trans_list(sels, ats0, Seq::<DeclM>::empty(), true) =~= Seq::<DeclM>::empty());
    assert(trans_list(sels, ats0, seq![outer2], true) =~= seq![f2]) by {
        assert(seq![f2] + Seq::<DeclM>::empty() =~= seq![f2]);
    }
    assert(trans_list(sels, ats0, ds, false) =~= seq![f1, f2]);

    // The merge pass combines the two rules, which share the key.
    let rs = seq![f1, f2];
    let rs1 = seq![f1];
    let k = (n, mv);
    assert(rs.drop_last() =~= rs1);
    assert(rs1.drop_last() =~= Seq::<DeclM>::empty());
    assert(qual_keys(rs1) =~= Seq::<Seq<Seq<char>>>::empty());
    assert(qual_keys(rs) =~= Seq::<Seq<Seq<char>>>::empty());
    assert(at_keys(rs1) =~= seq![k]);
    assert(at_keys(rs1).contains(k)) by {
        assert(at_keys(rs1)[0] == k);
    }
    assert(at_keys(rs) =~= seq![k]);
    assert(at_stmts_for(rs1, k) =~= Seq::<DeclM>::empty());
    assert(at_stmts_for(rs, k) =~= Seq::<DeclM>::empty());
    assert(at_block_for(rs1, k) =~= Seq::<DeclM>::empty() + seq![q1]);
    assert(Seq::<DeclM>::empty() + seq![q1] =~= seq![q1]);
    assert(at_block_for(rs, k) == at_block_for(rs1, k) + seq![q2]);
    assert(at_block_for(rs, k) =~= seq![q1, q2]);
    assert(quals_of(rs, Seq::<Seq<Seq<char>>>::empty()) =~= Seq::<DeclM>::empty());
    let aks = seq![k];
    assert(aks.drop_first() =~= Seq::<(Seq<char>, Seq<char>)>::empty());
    assert(ats_of(rs, aks.drop_first()) =~= Seq::<DeclM>::empty());
    let merged = DeclM::At(AtM { name: n, value: mv, block: Option::Some(seq![q1, q2]) });
    assert(at_merged_opt(rs, k) == seq![merged]);
    assert(at_group(rs, k) =~= seq![merged]);
    assert(ats_of(rs, aks) =~= seq![merged]);
    assert(merge_model(rs) =~= seq![merged]);
}

proof fn lemma_qual_keys_complete(rs: Seq<DeclM>)
    ensures
        forall|i: int|
            #![trigger rs[i]]
            0 <= i < rs.len() ==> match rs[i] {
                DeclM::Qual(q) => qual_keys(rs).contains(q.sels),
                _ => true,
            },
    decreases rs.len(),
{
    if rs.len() > 0 {
        lemma_qual_keys_complete(rs.drop_last());
        let ks = qual_keys(rs.drop_last());
        assert forall|i: int| 0 <= i < rs.len() implies match #[trigger] rs[i] {
            DeclM::Qual(q) => qual_keys(rs).contains(q.sels),
            _ => true,
        } by {
            match rs[i] {
                DeclM::Qual(q) => {
                    if i < rs.len() - 1 {
                        assert(rs.drop_last()[i] == rs[i]);
                        let x = choose|x: int| 0 <= x < ks.len() && ks[x] == q.sels;
                        assert(qual_keys(rs)[x] == q.sels);
                    } else {
                        if ks.contains(q.sels) {
                            let x = choose|x: int| 0 <= x < ks.len() && ks[x] == q.sels;
                            assert(qual_keys(rs)[x] == q.sels);
                        } else {
                            assert(qual_keys(rs)[ks.len() as int] == q.sels);
                        }
                    }
                },
                _ => {},
            }
        }
    }
}

proof fn lemma_qual_keys_unique(rs: Seq<DeclM>)
    ensures
        forall|x: int, y: int|
            0 <= x < y < qual_keys(rs).len() ==> qual_keys(rs)[x] != qual_keys(rs)[y],
    decreases rs.len(),
{
    if rs.len() > 0 {
        lemma_qual_keys_unique(rs.drop_last());
        let ks = qual_keys(rs.drop_last());
        match rs.last() {
            DeclM::Qual(q) => {
                if !ks.contains(q.sels) {
                    assert forall|x: int, y: int|
                        0 <= x < y < qual_keys(rs).len() implies qual_keys(rs)[x] != qual_keys(
                        rs,
                    )[y] by {
                        if y == ks.len() {
                            if ks[x] == q.sels {
                                assert(ks.contains(q.sels));
                            }
                        }
                    }
                }
            },
            _ => {},
        }
    }
}

proof fn lemma_quals_of_index(rs: Seq<DeclM>, ks: Seq<Seq<Seq<char>>>)
    ensures
        quals_of(rs, ks).len() == ks.len(),
        forall|i: int|
            0 <= i < ks.len() ==> quals_of(rs, ks)[i] == DeclM::Qual(
                QualM { sels: ks[i], block: qual_block_for(rs, ks[i]) },
            ),
    decreases ks.len(),
{
    if ks.len() > 0 {
        lemma_quals_of_index(rs, ks.drop_first());
        assert forall|i: int| 0 <= i < ks.len() implies quals_of(rs, ks)[i] == DeclM::Qual(
            QualM { sels: ks[i], block: qual_block_for(rs, ks[i]) },
        ) by {
            if i > 0 {
                assert(quals_of(rs, ks)[i] == quals_of(rs, ks.drop_first())[i - 1]);
                assert(ks.drop_first()[i - 1] == ks[i]);
            }
        }
    }
}

proof fn lemma_at_stmts_all_at(rs: Seq<DeclM>, k: (Seq<char>, Seq<char>))
    ensures
        forall|i: int|
            0 <= i < at_stmts_for(rs, k).len() ==> (#[trigger] at_stmts_for(rs, k)[i]) is At,
    decreases rs.len(),
{
    if rs.len() > 0 {
        lemma_at_stmts_all_at(rs.drop_last(), k);
    }
}

proof fn lemma_ats_of_all_at(rs: Seq<DeclM>, ks: Seq<(Seq<char>, Seq<char>)>)
    ensures
        forall|i: int| 0 <= i < ats_of(rs, ks).len() ==> (#[trigger] ats_of(rs, ks)[i]) is At,
    decreases ks.len(),
{
    if ks.len() > 0 {
        lemma_at_stmts_all_at(rs, ks[0]);
        lemma_ats_of_all_at(rs, ks.drop_first());
        assert forall|i: int| 0 <= i < ats_of(rs, ks).len() implies (#[trigger] ats_of(
            rs,
            ks,
        )[i]) is At by {
            let g = at_group(rs, ks[0]);
            if i < g.len() {
                if i < at_stmts_for(rs, ks[0]).len() {
                    assert(g[i] == at_stmts_for(rs, ks[0])[i]);
                } else {
                    assert(g[i] == at_merged_opt(rs, ks[0])[i - at_stmts_for(rs, ks[0]).len()]);
                }
            } else {
                assert(ats_of(rs, ks)[i] == ats_of(rs, ks.drop_first())[i - g.len()]);
            }
        }
    }
}

/// Rules that share a selector group are combined into one: whenever some
/// qualified rule of the flat list carries the group `k`, the merged output
/// holds exactly one qualified rule with that group, and its block is the
/// concatenation of the blocks of every rule carrying `k`, in first-to-last
/// order — which is what [`qual_block_for`] collects.
pub proof fn law_merge_by_selector_general(rs: Seq<DeclM>, k: Seq<Seq<char>>)
    requires
        exists|i: int|
            #![trigger rs[i]]
            0 <= i < rs.len() && match rs[i] {
                DeclM::Qual(q) => q.sels == k,
                _ => false,
            },
    ensures
        exists|j: int|
            #![trigger merge_model(rs)[j]]
            0 <= j < merge_model(rs).len() && merge_model(rs)[j] == DeclM::Qual(
                QualM { sels: k, block: qual_block_for(rs, k) },
            ),
        forall|j1: int, j2: int|
            #![trigger merge_model(rs)[j1], merge_model(rs)[j2]]
            (0 <= j1 < merge_model(rs).len() && 0 <= j2 < merge_model(rs).len() && (match merge_model(
                rs,
            )[j1] {
                DeclM::Qual(q) => q.sels == k,
                _ => false,
            }) && (match merge_model(rs)[j2] {
                DeclM::Qual(q) => q.sels == k,
                _ => false,
            })) ==> j1 == j2,
{
    lemma_qual_keys_complete(rs);
    lemma_qual_keys_unique(rs);
    let ks = qual_keys(rs);
    let aks = at_keys(rs);
    lemma_quals_of_index(rs, ks);
    lemma_ats_of_all_at(rs, aks);
    let i0 = choose|i: int|
        #![trigger rs[i]]
        0 <= i < rs.len() && match rs[i] {
            DeclM::Qual(q) => q.sels == k,
            _ => false,
        };
    assert(ks.contains(k));
    let x = choose|x: int| 0 <= x < ks.len() && ks[x] == k;
    assert(merge_model(rs)[x] == quals_of(rs, ks)[x]);
    assert(merge_model(rs)[x] == DeclM::Qual(QualM { sels: k, block: qual_block_for(rs, k) }));
    assert forall|j1: int, j2: int|
        #![trigger merge_model(rs)[j1], merge_model(rs)[j2]]
        (0 <= j1 < merge_model(rs).len() && 0 <= j2 < merge_model(rs).len() && (match merge_model(
            rs,
        )[j1] {
            DeclM::Qual(q) => q.sels == k,
            _ => false,
        }) && (match merge_model(rs)[j2] {
            DeclM::Qual(q) => q.sels == k,
            _ => false,
        })) implies j1 == j2 by {
        if j1 < ks.len() && j2 < ks.len() {
            assert(merge_model(rs)[j1] == quals_of(rs, ks)[j1]);
            assert(merge_model(rs)[j2] == quals_of(rs, ks)[j2]);
            assert(ks[j1] == k && ks[j2] == k);
        } else {
            if j1 >= ks.len() {
                assert(merge_model(rs)[j1] == ats_of(rs, aks)[j1 - ks.len()]);
            }
            if j2 >= ks.len() {
                assert(merge_model(rs)[j2] == ats_of(rs, aks)[j2 - ks.len()]);
            }
        }
    }
}

/// At-rule merging follows the nesting order of the source: a third level
/// merges into the already-merged value of the two outer levels, so the
/// combined value associates to the left.
pub proof fn law_at_rule_merge_follows_nesting(
    sels: Seq<Seq<char>>,
    n: Seq<char>,
    va: Seq<char>,
    vb: Seq<char>,
    vc: Seq<char>,
    p: PropM,
)
    requires
        n != nest_kw(),
    ensures
        ({
            let level3 = DeclM::At(
                AtM { name: n, value: vc, block: Option::Some(seq![DeclM::Prop(p)]) },
            );
            let level2 = DeclM::At(AtM { name: n, value: vb, block: Option::Some(seq![level3]) });
            let level1 = DeclM::At(AtM { name: n, value: va, block: Option::Some(seq![level2]) });
            transpile_result(sels, seq![level1]) == seq![
                DeclM::At(
                    AtM {
                        name: n,
                        value: merge_values(merge_values(va, vb), vc),
                        block: Option::Some(
                            seq![DeclM::Qual(QualM { sels, block: seq![DeclM::Prop(p)] })],
                        ),
                    },
                ),
            ]
        }),
{
    reveal_with_fuel(trans_list, 4);
    reveal_with_fuel(wrap_rules, 3);
    reveal_with_fuel(qual_keys, 3);
    reveal_with_fuel(at_keys, 3);
    reveal_with_fuel(at_stmts_for, 3);
    reveal_with_fuel(at_block_for, 3);
    reveal_with_fuel(quals_of, 2);
    reveal_with_fuel(ats_of, 2);
    let ats0 = Seq::<(Seq<char>, Seq<char>)>::empty();
    let m1 = merge_values(va, vb);
    let m2 = merge_values(m1, vc);
    let level3 = DeclM::At(AtM { name: n, value: vc, block: Option::Some(seq![DeclM::Prop(p)]) });
    let level2 = DeclM::At(AtM { name: n, value: vb, block: Option::Some(seq![level3]) });
    let level1 = DeclM::At(AtM { name: n, value: va, block: Option::Some(seq![level2]) });
    let q = DeclM::Qual(QualM { sels, block: seq![DeclM::Prop(p)] });
    let f = DeclM::At(AtM { name: n, value: m2, block: Option::Some(seq![q]) });

    // The stack merges level by level, in source order.
    assert(push_at(ats0, n, va) =~= seq![(n, va)]);
    assert(push_at(seq![(n, va)], n, vb) =~= seq![(n, m1)]);
    assert(push_at(seq![(n, m1)], n, vc) =~= seq![(n, m2)]);

    assert(wrap_rules(seq![(n, m2)], q) == f) by {
        assert(seq![(n, m2)].drop_last() =~= Seq::<(Seq<char>, Seq<char>)>::empty());
    }
    assert(trans_list(sels, seq![(n, m2)], seq![DeclM::Prop(p)], false) =~= seq![f]) by {
        assert(seq![DeclM::Prop(p)].drop_first() =~= Seq::<DeclM>::empty());
    }
    match level3 {
        DeclM::At(a) => {
            assert(trans_at(sels, seq![(n, m1)], a) =~= seq![f]);
        },
        _ => {},
    }
    assert(trans_list(sels, seq![(n, m1)], seq![level3], false) =~= seq![f]) by {
        assert(seq![level3].drop_first() =~= Seq::<DeclM>::empty());
        assert(seq![f] + Seq::<DeclM>::empty() =~= seq![f]);
    }
    match level2 {
        DeclM::At(a) => {
            assert(trans_at(sels, seq![(n, va)], a) =~= seq![f]);
        },
        _ => {},
    }
    assert(trans_list(sels, seq![(n, va)], seq![level2], false) =~= seq![f]) by {
        assert(seq![level2].drop_first() =~= Seq::<DeclM>::empty());
        assert(seq![f] + Seq::<DeclM>::empty() =~= seq![f]);
    }
    match level1 {
        DeclM::At(a) => {
            assert(trans_at(sels, ats0, a) =~= seq![f]);
        },
        _ => {},
    }
    assert(trans_list(sels, ats0, seq![level1], false) =~= seq![f]) by {
        assert(seq![level1].drop_first() =~= Seq::<DeclM>::empty());
        assert(seq![f] + Seq::<DeclM>::empty() =~= seq![f]);
    }

    // One rule remains, so the merge pass reproduces it.
    let rs = seq![f];
    let k = (n, m2);
    assert(rs.drop_last() =~= Seq::<DeclM>::empty());
    assert(qual_keys(rs) =~= Seq::<Seq<Seq<char>>>::empty());
    assert(at_keys(rs) =~= seq![k]);
    assert(at_stmts_for(rs, k) =~= Seq::<DeclM>::empty());
    assert(at_block_for(rs, k) =~= Seq::<DeclM>::empty() + seq![q]);
    assert(Seq::<DeclM>::empty() + seq![q] =~= seq![q]);
    assert(quals_of(rs, Seq::<Seq<Seq<char>>>::empty()) =~= Seq::<DeclM>::empty());
    let aks = seq![k];
    assert(aks.drop_first() =~= Seq::<(Seq<char>, Seq<char>)>::empty());
    assert(ats_of(rs, aks.drop_first()) =~= Seq::<DeclM>::empty());
    assert(at_merged_opt(rs, k) == seq![f]);
    assert(at_group(rs, k) =~= seq![f]);
    assert(ats_of(rs, aks) =~= seq![f]);
    assert(merge_model(rs) =~= seq![f]);
}

} // verus!
