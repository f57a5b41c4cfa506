//! Name resolution: turning requested names into merged template text.
//!
//! Per requested name the precedence is user template, then alias, then
//! vendor template. An alias is expanded one level only: each target is
//! looked up as a user template, then as a vendor template — never as
//! another alias. A target matching neither is reported as missing and
//! contributes nothing.

use vstd::prelude::*;
use vstd::string::StrSliceExecFns;
use vstd::string::StringExecFns;

use crate::data::{EntryV, IgnoreData, user_lookup, vendor_lookup, alias_lookup};
use crate::text::join_with;

verus! {

/// The content an option carries, or nothing.
pub open spec fn text_or_empty(o: Option<Seq<char>>) -> Seq<char> {
    match o {
        Option::Some(c) => c,
        Option::None => Seq::empty(),
    }
}

/// What one alias target contributes: its user template if there is one,
/// else its vendor template, else nothing — never another alias.
pub open spec fn target_text(cat: Seq<EntryV>, t: Seq<char>) -> Seq<char> {
    match user_lookup(cat, t) {
        Option::Some(c) => c,
        Option::None => text_or_empty(vendor_lookup(cat, t)),
    }
}

/// An alias target that is neither a user template nor a vendor template.
pub open spec fn target_missing(cat: Seq<EntryV>, t: Seq<char>) -> bool {
    user_lookup(cat, t) is None && vendor_lookup(cat, t) is None
}

/// The concatenated contributions of an alias's targets, in order.
pub open spec fn alias_text(cat: Seq<EntryV>, targets: Seq<Seq<char>>) -> Seq<char>
    decreases targets.len(),
{
    if targets.len() == 0 {
        Seq::empty()
    } else {
        alias_text(cat, targets.drop_last()) + target_text(cat, targets.last())
    }
}

/// The missing targets of an alias, in order.
pub open spec fn alias_missing(cat: Seq<EntryV>, targets: Seq<Seq<char>>) -> Seq<Seq<char>>
    decreases targets.len(),
{
    if targets.len() == 0 {
        Seq::empty()
    } else {
        alias_missing(cat, targets.drop_last()) + (if target_missing(cat, targets.last()) {
            seq![targets.last()]
        } else {
            Seq::empty()
        })
    }
}

/// What one requested name contributes: the user template named so, else
/// the one-level expansion of the alias named so, else the vendor
/// template named so, else nothing.
pub open spec fn resolve_one(cat: Seq<EntryV>, name: Seq<char>) -> Seq<char> {
    if user_lookup(cat, name) is Some {
        text_or_empty(user_lookup(cat, name))
    } else if alias_lookup(cat, name) is Some {
        alias_text(cat, alias_targets(cat, name))
    } else {
        text_or_empty(vendor_lookup(cat, name))
    }
}

/// The targets of the alias a name denotes, or nothing.
pub open spec fn alias_targets(cat: Seq<EntryV>, name: Seq<char>) -> Seq<Seq<char>> {
    match alias_lookup(cat, name) {
        Option::Some(ts) => ts,
        Option::None => Seq::empty(),
    }
}

/// The missing alias targets one requested name gives rise to.
pub open spec fn missing_of(cat: Seq<EntryV>, name: Seq<char>) -> Seq<Seq<char>> {
    if user_lookup(cat, name) is Some {
        Seq::empty()
    } else if alias_lookup(cat, name) is Some {
        alias_missing(cat, alias_targets(cat, name))
    } else {
        Seq::empty()
    }
}

/// The concatenated contributions of all requested names, in order.
pub open spec fn resolve_all(cat: Seq<EntryV>, names: Seq<Seq<char>>) -> Seq<char>
    decreases names.len(),
{
    if names.len() == 0 {
        Seq::empty()
    } else {
        resolve_all(cat, names.drop_last()) + resolve_one(cat, names.last())
    }
}

/// All missing alias targets of a request, in order.
pub open spec fn missing_all(cat: Seq<EntryV>, names: Seq<Seq<char>>) -> Seq<Seq<char>>
    decreases names.len(),
{
    if names.len() == 0 {
        Seq::empty()
    } else {
        missing_all(cat, names.drop_last()) + missing_of(cat, names.last())
    }
}

/// The header line put before non-empty merged text.
pub open spec fn header_text(names: Seq<Seq<char>>) -> Seq<char> {
    "\n\n### Sourced from github/gitignore for: "@ + join_with(names, ", "@) + " ###\n"@
}

/// The full output of a resolution: nothing when nothing was found, else
/// the header followed by the merged contributions.
pub open spec fn rendered_output(cat: Seq<EntryV>, names: Seq<Seq<char>>) -> Seq<char> {
    if resolve_all(cat, names).len() == 0 {
        Seq::empty()
    } else {
        header_text(names) + resolve_all(cat, names)
    }
}

/// User templates take precedence: whenever a user template carries the
/// requested key, resolution returns that template's content — even when
/// a vendor template (or an alias) shares the key.
pub proof fn lemma_user_precedence(cat: Seq<EntryV>, name: Seq<char>)
    requires
        user_lookup(cat, name) is Some,
    ensures
        resolve_one(cat, name) == text_or_empty(user_lookup(cat, name)),
{
}

/// Alias expansion is one level deep: a target that names neither a user
/// template nor a vendor template contributes nothing — even when it
/// names another alias — and is reported among the missing targets.
pub proof fn lemma_alias_one_level(cat: Seq<EntryV>, targets: Seq<Seq<char>>, t: Seq<char>)
    requires
        targets.contains(t),
        user_lookup(cat, t) is None,
        vendor_lookup(cat, t) is None,
    ensures
        target_text(cat, t) == Seq::<char>::empty(),
        alias_missing(cat, targets).contains(t),
    decreases targets.len(),
{
    if targets.len() > 0 {
        if targets.last() == t {
            let m = alias_missing(cat, targets);
            let prefix = alias_missing(cat, targets.drop_last());
            assert(m == prefix + seq![t]);
            assert(m[m.len() - 1] == t);
        } else {
            let i = choose|i: int| 0 <= i < targets.len() && targets[i] == t;
            assert(targets.drop_last()[i] == t);
            lemma_alias_one_level(cat, targets.drop_last(), t);
            let prefix = alias_missing(cat, targets.drop_last());
            let j = choose|j: int| 0 <= j < prefix.len() && prefix[j] == t;
            assert(alias_missing(cat, targets)[j] == t);
        }
    }
}

/// The text and the missing-target reports of one resolution.
pub struct Resolution {
    /// Merged template text, header included when non-empty.
    pub text: String,
    /// Alias targets that matched nothing, in the order they were met.
    pub missing: Vec<String>,
}

/// Resolves the requested names against the catalog, in the order given.
pub fn resolve_templates(data: &IgnoreData, names: &Vec<String>) -> (r: Resolution)
    ensures
        r.text@ == rendered_output(data@, names.deep_view()),
        r.missing.deep_view() == missing_all(data@, names.deep_view()),
{
    let ghost cat = data@;
    let ghost nsv = names.deep_view();
    let mut result = String::new();
    let mut missing: Vec<String> = Vec::new();
    let mut n: usize = 0;
    proof {
        assert(nsv.take(0) =~= Seq::<Seq<char>>::empty());
    }
    while n < names.len()
        invariant
            n <= names@.len(),
            cat == data@,
            nsv == names.deep_view(),
            result@ == resolve_all(cat, nsv.take(n as int)),
            missing.deep_view() == missing_all(cat, nsv.take(n as int)),
        decreases names@.len() - n,
    {
        let ghost r0 = result@;
        let ghost m0 = missing.deep_view();
        let name = &names[n];
        if let Some(val) = data.get_user_template(name.as_str()) {
            result.append(val.as_str());
        } else if let Some(targets) = data.get_alias(name.as_str()) {
            let ghost ts = targets.deep_view();
            proof {
                assert(ts == alias_targets(cat, nsv[n as int]));
                assert(ts.take(0) =~= Seq::<Seq<char>>::empty());
            }
            let mut t: usize = 0;
            while t < targets.len()
                invariant
                    t <= targets@.len(),
                    cat == data@,
                    ts == targets.deep_view(),
                    result@ == r0 + alias_text(cat, ts.take(t as int)),
                    missing.deep_view() == m0 + alias_missing(cat, ts.take(t as int)),
                decreases targets@.len() - t,
            {
                let target = &targets[t];
                proof {
                    assert(ts.take(t + 1).drop_last() =~= ts.take(t as int));
                    assert(ts.take(t + 1).last() == ts[t as int]);
                }
                if let Some(val) = data.get_user_template(target.as_str()) {
                    result.append(val.as_str());
                    proof {
                        assert(missing.deep_view() + Seq::<Seq<char>>::empty()
                            =~= missing.deep_view());
                    }
                } else if let Some(val) = data.get_template(target.as_str()) {
                    result.append(val.as_str());
                    proof {
                        assert(missing.deep_view() + Seq::<Seq<char>>::empty()
                            =~= missing.deep_view());
                    }
                } else {
                    let ghost mm = missing.deep_view();
                    missing.push(target.clone());
                    proof {
                        assert(missing.deep_view() =~= mm.push(ts[t as int]));
                        assert(mm + seq![ts[t as int]] =~= mm.push(ts[t as int]));
                    }
                }
                t = t + 1;
            }
            proof {
                assert(ts.take(targets@.len() as int) =~= ts);
            }
        } else if let Some(val) = data.get_template(name.as_str()) {
            result.append(val.as_str());
        }
        proof {
            assert(nsv.take(n + 1).drop_last() =~= nsv.take(n as int));
            assert(nsv.take(n + 1).last() == nsv[n as int]);
            assert(resolve_all(cat, nsv.take(n + 1)) == resolve_all(cat, nsv.take(n as int))
                + resolve_one(cat, nsv[n as int]));
            if user_lookup(cat, nsv[n as int]) is Some || alias_lookup(cat, nsv[n as int]) is Some {
            } else if vendor_lookup(cat, nsv[n as int]) is None {
                assert(result@ =~= r0 + Seq::<char>::empty());
                assert(missing.deep_view() =~= m0 + Seq::<Seq<char>>::empty());
            }
            assert(missing_all(cat, nsv.take(n + 1)) == missing_all(cat, nsv.take(n as int))
                + missing_of(cat, nsv[n as int]));
        }
        n = n + 1;
    }
    proof {
        assert(nsv.take(names@.len() as int) =~= nsv);
    }
    if result.as_str().unicode_len() == 0 {
        proof {
            assert(result@ =~= Seq::<char>::empty());
        }
        return Resolution { text: result, missing };
    }
    let mut out = <String as StringExecFns>::from_str("\n\n### Sourced from github/gitignore for: ");
    let mut k: usize = 0;
    proof {
        assert(out@ =~= "\n\n### Sourced from github/gitignore for: "@ + join_with(
            nsv.take(0),
            ", "@,
        ));
    }
    while k < names.len()
        invariant
            k <= names@.len(),
            nsv == names.deep_view(),
            out@ == "\n\n### Sourced from github/gitignore for: "@ + join_with(
                nsv.take(k as int),
                ", "@,
            ),
        decreases names@.len() - k,
    {
        if k > 0 {
            out.append(", ");
        }
        out.append(names[k].as_str());
        proof {
            assert(nsv.take(k + 1).drop_last() =~= nsv.take(k as int));
            assert(nsv.take(k + 1).last() == nsv[k as int]);
            if k == 0 {
                assert(join_with(nsv.take(1), ", "@) == nsv[0]);
            }
        }
        k = k + 1;
    }
    proof {
        assert(nsv.take(names@.len() as int) =~= nsv);
    }
    out.append(" ###\n");
    out.append(result.as_str());
    Resolution { text: out, missing }
}

/// The merged text for the requested names, as resolution renders it:
/// empty when nothing was found, else header plus contributions.
pub fn get_templates(data: &IgnoreData, names: &Vec<String>) -> (r: String)
    ensures
        r@ == rendered_output(data@, names.deep_view()),
{
    let resolution = resolve_templates(data, names);
    resolution.text
}

} // verus!
