//! The parser facade: normalizes the raw text, runs the segmenter and the
//! interpretation extractor, and merges each article's interpretations
//! into its rule.

use vstd::prelude::*;

verus! {

use crate::interpret::{extract_interpretations, extract_interpretations_spec};
use crate::normalize::{normalize_spec, preprocess_text};
use crate::rule::{
    first_index_with_nr, lemma_first_index_with_nr, ErrSpec, GroupView, InterpretationGroup,
    InterpretationMap, ParseError, RuleMap, RuleView, rules_wf,
};
use crate::segment::{extract_rules, extract_rules_spec};

/// The interpretations merged into their rules, group by group: each
/// group's article number must name an existing rule, whose
/// interpretations it replaces.
pub open spec fn assemble_spec(
    rules: Seq<RuleView>,
    groups: Seq<GroupView>,
    k: int,
) -> Result<Seq<RuleView>, ErrSpec>
    decreases groups.len() - k,
{
    if k < 0 || k >= groups.len() {
        Result::Ok(rules)
    } else {
        let g = groups[k];
        let i = first_index_with_nr(rules, g.article_nr);
        if i < 0 {
            Result::Err(ErrSpec::RuleNotFound(g.article_nr))
        } else {
            assemble_spec(
                rules.update(i, (RuleView { interpretations: g.items, ..rules[i] })),
                groups,
                k + 1,
            )
        }
    }
}

/// What parsing the raw text yields: the normalized text is segmented into
/// rules and scanned for interpretations independently, and the two are
/// merged. Any failure is final: no partial collection is returned.
pub open spec fn parse_spec(s: Seq<char>) -> Result<Seq<RuleView>, ErrSpec> {
    let norm = normalize_spec(s);
    match extract_rules_spec(norm) {
        Result::Err(e) => Result::Err(e),
        Result::Ok(rules) => match extract_interpretations_spec(norm) {
            Result::Err(e) => Result::Err(e),
            Result::Ok(groups) => assemble_spec(rules, groups, 0),
        },
    }
}

/// What parsing for interpretations alone yields.
pub open spec fn parse_interpretations_spec(s: Seq<char>) -> Result<Seq<GroupView>, ErrSpec> {
    extract_interpretations_spec(normalize_spec(s))
}

/// Replacing a rule's interpretations keeps the article numbers, and with
/// them the collection's key uniqueness.
proof fn lemma_update_keeps_wf(rules: Seq<RuleView>, i: int, r: RuleView)
    requires
        rules_wf(rules),
        0 <= i < rules.len(),
        r.article_nr == rules[i].article_nr,
    ensures
        rules_wf(rules.update(i, r)),
{
    let out = rules.update(i, r);
    assert forall|a: int, b: int| 0 <= a < b < out.len() implies out[a].article_nr
        != out[b].article_nr by {
        assert(out[a].article_nr == rules[a].article_nr);
        assert(out[b].article_nr == rules[b].article_nr);
    }
}

/// The parser over the linearized rulebook text.
pub struct RulesParser;

impl RulesParser {
    /// Parse the raw text into the rule collection, interpretations
    /// attached. Fails, returning nothing, when a region anchor is absent,
    /// a captured number or index does not parse, or an interpretation
    /// names an article that no rule carries.
    pub fn parse(rules_text: &str) -> (r: Result<RuleMap, ParseError>)
        ensures
            match r {
                Ok(m) => parse_spec(rules_text@) == Result::<Seq<RuleView>, ErrSpec>::Ok(m@)
                    && rules_wf(m@),
                Err(e) => parse_spec(rules_text@) == Result::<Seq<RuleView>, ErrSpec>::Err(e@),
            },
    {
        let norm = preprocess_text(String::from_str(rules_text));
        let mut rules = match extract_rules(norm.as_str()) {
            Err(e) => {
                return Err(e);
            },
            Ok(m) => m,
        };
        let interps = match extract_interpretations(norm.as_str()) {
            Err(e) => {
                return Err(e);
            },
            Ok(m) => m,
        };
        let ghost gss = interps@;
        let ghost k: int = 0;
        let mut gs = interps.into_groups();
        proof {
            assert(gs@.map_values(|g: InterpretationGroup| g@) =~= gss.skip(0));
        }
        while gs.len() > 0
            invariant
                0 <= k <= gss.len(),
                gs@.map_values(|g: InterpretationGroup| g@) == gss.skip(k),
                rules_wf(rules@),
                parse_spec(rules_text@) == assemble_spec(rules@, gss, k),
            decreases gs@.len(),
        {
            let ghost gs0 = gs@;
            let g = gs.remove(0);
            proof {
                assert(g == gs0[0]);
                assert(gs0.map_values(|x: InterpretationGroup| x@).len() == gs0.len());
                assert(gs0.map_values(|x: InterpretationGroup| x@)[0] == gs0[0]@);
                assert(gss.skip(k)[0] == gss[k]);
                assert(g@ == gss[k]);
                assert(gs@.map_values(|x: InterpretationGroup| x@) =~= gs0.map_values(
                    |x: InterpretationGroup| x@,
                ).drop_first());
                assert(gs@.map_values(|x: InterpretationGroup| x@) =~= gss.skip(k + 1));
                lemma_first_index_with_nr(rules@, g.article_nr);
            }
            let ghost rules0 = rules@;
            let ghost idx = first_index_with_nr(rules@, g.article_nr);
            let nr = g.article_nr;
            let found = rules.set_interpretations(&nr, g.items);
            if !found {
                proof {
                    assert(assemble_spec(rules0, gss, k) == Result::<
                        Seq<RuleView>,
                        ErrSpec,
                    >::Err(ErrSpec::RuleNotFound(nr)));
                }
                return Err(ParseError::RuleNotFound(nr));
            }
            proof {
                assert(rules@ == rules0.update(
                    idx,
                    (RuleView { interpretations: gss[k].items, ..rules0[idx] }),
                ));
                lemma_update_keeps_wf(rules0, idx, (RuleView {
                    interpretations: gss[k].items,
                    ..rules0[idx]
                }));
                assert(assemble_spec(rules0, gss, k) == assemble_spec(rules@, gss, k + 1));
                k = k + 1;
            }
        }
        proof {
            assert(gss.skip(k) =~= Seq::<GroupView>::empty());
            assert(k == gss.len());
        }
        Ok(rules)
    }

    /// Parse the raw text for interpretations alone, grouped by article
    /// number in document order.
    pub fn parse_interpretations(rules_text: &str) -> (r: Result<InterpretationMap, ParseError>)
        ensures
            match r {
                Ok(m) => parse_interpretations_spec(rules_text@) == Result::<
                    Seq<GroupView>,
                    ErrSpec,
                >::Ok(m@),
                Err(e) => parse_interpretations_spec(rules_text@) == Result::<
                    Seq<GroupView>,
                    ErrSpec,
                >::Err(e@),
            },
    {
        let norm = preprocess_text(String::from_str(rules_text));
        extract_interpretations(norm.as_str())
    }
}

} // verus!
