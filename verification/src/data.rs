//! The catalog: a unified, ordered collection of vendor templates, user
//! aliases and user templates, with lookup and substring search.
//!
//! Every entry carries a key. The catalog's total order puts vendor
//! templates before aliases before user templates, and breaks ties with
//! case-sensitive lexicographic key comparison.

use vstd::prelude::*;
use vstd::multiset::Multiset;
use vstd::string::StrSliceExecFns;
use vstd::string::StringExecFns;

use crate::text::{
    lex_le, lemma_lex_le_total, lemma_lex_le_trans, lemma_lex_le_antisym, contains_seq,
    str_le, str_eq, str_contains,
};

verus! {

/// One entry of the catalog.
#[derive(Debug, Clone)]
pub enum Type {
    /// A template from the vendor template store.
    Template { key: String, content: String },
    /// A user-defined alias: a name standing for a list of other names.
    Alias { key: String, aliases: Vec<String> },
    /// A user-authored template, its content snapshot at catalog build.
    UserTemplate { key: String, content: String },
}

/// The mathematical shape of an entry: the same three variants over
/// character sequences.
pub enum EntryV {
    Template { key: Seq<char>, content: Seq<char> },
    Alias { key: Seq<char>, targets: Seq<Seq<char>> },
    UserTemplate { key: Seq<char>, content: Seq<char> },
}

impl DeepView for Type {
    type V = EntryV;

    open spec fn deep_view(&self) -> EntryV {
        match self {
            Type::Template { key, content } => EntryV::Template {
                key: key@,
                content: content@,
            },
            Type::Alias { key, aliases } => EntryV::Alias { key: key@, targets: aliases.deep_view() },
            Type::UserTemplate { key, content } => EntryV::UserTemplate {
                key: key@,
                content: content@,
            },
        }
    }
}

/// Sort rank of a variant: vendor templates first, then aliases, then
/// user templates.
pub open spec fn rank_v(e: EntryV) -> int {
    match e {
        EntryV::Template { .. } => 0,
        EntryV::Alias { .. } => 1,
        EntryV::UserTemplate { .. } => 2,
    }
}

/// The key of an entry.
pub open spec fn key_v(e: EntryV) -> Seq<char> {
    match e {
        EntryV::Template { key, .. } => key,
        EntryV::Alias { key, .. } => key,
        EntryV::UserTemplate { key, .. } => key,
    }
}

/// The text of a template entry; aliases carry none.
pub open spec fn content_v(e: EntryV) -> Seq<char> {
    match e {
        EntryV::Template { content, .. } => content,
        EntryV::Alias { .. } => Seq::empty(),
        EntryV::UserTemplate { content, .. } => content,
    }
}

/// The target names of an alias entry; templates carry none.
pub open spec fn targets_v(e: EntryV) -> Seq<Seq<char>> {
    match e {
        EntryV::Alias { targets, .. } => targets,
        _ => Seq::empty(),
    }
}

/// The catalog's total order: by variant rank, ties broken by
/// case-sensitive key comparison.
pub open spec fn entry_le(a: EntryV, b: EntryV) -> bool {
    rank_v(a) < rank_v(b) || (rank_v(a) == rank_v(b) && lex_le(key_v(a), key_v(b)))
}

/// A catalog sequence ordered by `entry_le`.
pub open spec fn entries_sorted(s: Seq<EntryV>) -> bool {
    forall|i: int, j: int| 0 <= i < j < s.len() ==> entry_le(s[i], s[j])
}

pub proof fn lemma_entry_le_total(a: EntryV, b: EntryV)
    ensures
        entry_le(a, b) || entry_le(b, a),
{
    lemma_lex_le_total(key_v(a), key_v(b));
}

pub proof fn lemma_entry_le_trans(a: EntryV, b: EntryV, c: EntryV)
    requires
        entry_le(a, b),
        entry_le(b, c),
    ensures
        entry_le(a, c),
{
    if rank_v(a) == rank_v(b) && rank_v(b) == rank_v(c) {
        lemma_lex_le_trans(key_v(a), key_v(b), key_v(c));
    }
}

impl Type {
    /// The key under which this entry is addressed.
    pub fn key(&self) -> (r: &str)
        ensures
            r@ == key_v(self.deep_view()),
    {
        match self {
            Type::Template { key, .. } => key.as_str(),
            Type::Alias { key, .. } => key.as_str(),
            Type::UserTemplate { key, .. } => key.as_str(),
        }
    }
}

/// Variant rank of an entry, for the executable comparison.
fn rank_exec(t: &Type) -> (r: u8)
    ensures
        r as int == rank_v(t.deep_view()),
{
    match t {
        Type::Template { .. } => 0,
        Type::Alias { .. } => 1,
        Type::UserTemplate { .. } => 2,
    }
}

/// Executable form of the catalog order `entry_le`.
fn entry_le_exec(a: &Type, b: &Type) -> (r: bool)
    ensures
        r == entry_le(a.deep_view(), b.deep_view()),
{
    let ra = rank_exec(a);
    let rb = rank_exec(b);
    if ra < rb {
        true
    } else if rb < ra {
        false
    } else {
        str_le(a.key(), b.key())
    }
}

/// Sorts entries by the catalog order, keeping exactly the same entries.
fn sort_entries(input: Vec<Type>) -> (out: Vec<Type>)
    ensures
        entries_sorted(out.deep_view()),
        out.deep_view().to_multiset() == input.deep_view().to_multiset(),
{
    broadcast use vstd::seq_lib::group_to_multiset_ensures;

    let mut rest = input;
    let mut out: Vec<Type> = Vec::new();
    proof {
        assert(out.deep_view() + rest.deep_view() =~= rest.deep_view());
        vstd::seq_lib::lemma_multiset_commutative(out.deep_view(), rest.deep_view());
    }
    let ghost all = rest.deep_view();
    while rest.len() > 0
        invariant
            entries_sorted(out.deep_view()),
            out.deep_view().to_multiset().add(rest.deep_view().to_multiset())
                == all.to_multiset(),
        decreases rest.len(),
    {
        let ghost rest0 = rest.deep_view();
        let ghost out0 = out.deep_view();
        let x = rest.remove(0);
        proof {
            assert(rest0.len() > 0);
            assert(rest.deep_view() =~= rest0.drop_first());
            assert(rest0.drop_first() =~= rest0.remove(0));
            vstd::seq_lib::to_multiset_remove(rest0, 0);
            assert(x.deep_view() == rest0[0]);
        }
        let mut p: usize = 0;
        loop
            invariant_except_break
                p <= out.len(),
                out.deep_view() == out0,
                forall|q: int| 0 <= q < p ==> entry_le(out0[q], x.deep_view()),
            ensures
                p <= out.len(),
                out.deep_view() == out0,
                forall|q: int| 0 <= q < p ==> entry_le(out0[q], x.deep_view()),
                p < out.len() ==> !entry_le(out0[p as int], x.deep_view()),
            decreases out.len() - p,
        {
            if p == out.len() {
                break;
            }
            if entry_le_exec(&out[p], &x) {
                p = p + 1;
            } else {
                break;
            }
        }
        proof {
            if p < out0.len() {
                lemma_entry_le_total(out0[p as int], x.deep_view());
                assert(entry_le(x.deep_view(), out0[p as int]));
            }
            assert forall|q: int| p <= q < out0.len() implies entry_le(
                x.deep_view(),
                out0[q],
            ) by {
                if q > p {
                    lemma_entry_le_trans(x.deep_view(), out0[p as int], out0[q]);
                }
            }
        }
        out.insert(p, x);
        proof {
            assert(out.deep_view() =~= out0.insert(p as int, rest0[0]));
            vstd::seq_lib::to_multiset_insert(out0, p as int, rest0[0]);
            let newv = out.deep_view();
            assert forall|i: int, j: int| 0 <= i < j < newv.len() implies entry_le(
                newv[i],
                newv[j],
            ) by {
                if j < p {
                    assert(entry_le(out0[i], out0[j]));
                } else if j == p {
                    assert(entry_le(out0[i], rest0[0]));
                } else if i < p {
                    assert(entry_le(out0[i], out0[j - 1]));
                } else if i == p {
                    assert(entry_le(rest0[0], out0[j - 1]));
                } else {
                    assert(entry_le(out0[i - 1], out0[j - 1]));
                }
            }
            assert(out.deep_view().to_multiset().add(rest.deep_view().to_multiset())
                == all.to_multiset()) by {
                broadcast use vstd::multiset::group_multiset_axioms;
                broadcast use vstd::seq_lib::group_to_multiset_ensures;

                assert(rest0.contains(rest0[0]));
                assert(rest0.to_multiset().count(rest0[0]) >= 1);
                assert(out0.to_multiset().insert(rest0[0]).add(
                    rest0.to_multiset().remove(rest0[0]),
                ) =~= out0.to_multiset().add(rest0.to_multiset()));
            }
        }
    }
    proof {
        assert(rest.deep_view() =~= Seq::<EntryV>::empty());
        assert(Seq::<EntryV>::empty().to_multiset() =~= Multiset::<EntryV>::empty());
        assert(out.deep_view().to_multiset() =~= all.to_multiset());
    }
    out
}

} // verus!

verus! {

/// The abstract entry built from one vendor store file.
pub open spec fn vendor_entry(p: (Seq<char>, Seq<char>)) -> EntryV {
    EntryV::Template { key: p.0, content: p.1 }
}

/// The abstract entry built from one file of the `Global` subdirectory:
/// the same, with the prefixed key.
pub open spec fn global_entry(p: (Seq<char>, Seq<char>)) -> EntryV {
    EntryV::Template { key: crate::global_prefix() + p.0, content: p.1 }
}

/// The abstract entry built from one user alias mapping.
pub open spec fn alias_entry(p: (Seq<char>, Seq<Seq<char>>)) -> EntryV {
    EntryV::Alias { key: p.0, targets: p.1 }
}

/// The abstract entry built from one user template mapping.
pub open spec fn user_entry(p: (Seq<char>, Seq<char>)) -> EntryV {
    EntryV::UserTemplate { key: p.0, content: p.1 }
}

pub open spec fn vendor_entries(s: Seq<(Seq<char>, Seq<char>)>) -> Seq<EntryV> {
    s.map_values(|p: (Seq<char>, Seq<char>)| vendor_entry(p))
}

pub open spec fn global_entries(s: Seq<(Seq<char>, Seq<char>)>) -> Seq<EntryV> {
    s.map_values(|p: (Seq<char>, Seq<char>)| global_entry(p))
}

pub open spec fn alias_entries(s: Seq<(Seq<char>, Seq<Seq<char>>)>) -> Seq<EntryV> {
    s.map_values(|p: (Seq<char>, Seq<Seq<char>>)| alias_entry(p))
}

pub open spec fn user_entries(s: Seq<(Seq<char>, Seq<char>)>) -> Seq<EntryV> {
    s.map_values(|p: (Seq<char>, Seq<char>)| user_entry(p))
}

/// All entries a catalog is built from, before sorting.
pub open spec fn catalog_entries(
    vendor: Seq<(Seq<char>, Seq<char>)>,
    global: Seq<(Seq<char>, Seq<char>)>,
    aliases: Seq<(Seq<char>, Seq<Seq<char>>)>,
    users: Seq<(Seq<char>, Seq<char>)>,
) -> Seq<EntryV> {
    vendor_entries(vendor) + global_entries(global) + alias_entries(aliases) + user_entries(users)
}

/// The unified catalog of one invocation.
#[derive(Debug)]
pub struct IgnoreData {
    pub data: Vec<Type>,
}

impl View for IgnoreData {
    type V = Seq<EntryV>;

    open spec fn view(&self) -> Seq<EntryV> {
        self.data.deep_view()
    }
}

impl IgnoreData {
    /// Builds the catalog from the vendor store's files (root and `Global`
    /// subdirectory, each a key paired with the file's content), the user's
    /// alias mappings and the user's template snapshots. Keys of the
    /// `Global` files are prefixed with `Global/`. The result holds exactly
    /// those entries, sorted by the catalog order.
    pub fn new(
        vendor: Vec<(String, String)>,
        global: Vec<(String, String)>,
        aliases: Vec<(String, Vec<String>)>,
        user_templates: Vec<(String, String)>,
    ) -> (r: IgnoreData)
        ensures
            entries_sorted(r@),
            r@.to_multiset() == catalog_entries(
                vendor.deep_view(),
                global.deep_view(),
                aliases.deep_view(),
                user_templates.deep_view(),
            ).to_multiset(),
    {
        let ghost v0 = vendor.deep_view();
        let ghost g0 = global.deep_view();
        let ghost a0 = aliases.deep_view();
        let ghost u0 = user_templates.deep_view();
        let mut data: Vec<Type> = Vec::new();

        let mut vendor = vendor;
        proof {
            assert(data.deep_view() + vendor_entries(vendor.deep_view()) =~= vendor_entries(v0));
        }
        while vendor.len() > 0
            invariant
                data.deep_view() + vendor_entries(vendor.deep_view()) == vendor_entries(v0),
            decreases vendor.len(),
        {
            let ghost d0 = data.deep_view();
            let ghost r0 = vendor.deep_view();
            let x = vendor.remove(0);
            let t = Type::Template { key: x.0, content: x.1 };
            data.push(t);
            proof {
                assert(vendor.deep_view() =~= r0.drop_first());
                assert(data.deep_view() =~= d0.push(vendor_entry(r0[0])));
                assert(data.deep_view() + vendor_entries(vendor.deep_view()) =~= d0
                    + vendor_entries(r0));
            }
        }

        let mut global = global;
        proof {
            assert(data.deep_view() + global_entries(global.deep_view()) =~= vendor_entries(v0)
                + global_entries(g0));
        }
        while global.len() > 0
            invariant
                data.deep_view() + global_entries(global.deep_view()) == vendor_entries(v0)
                    + global_entries(g0),
            decreases global.len(),
        {
            let ghost d0 = data.deep_view();
            let ghost r0 = global.deep_view();
            let x = global.remove(0);
            let mut gkey = <String as vstd::string::StringExecFns>::from_str("Global/");
            gkey.append(x.0.as_str());
            let t = Type::Template { key: gkey, content: x.1 };
            data.push(t);
            proof {
                assert(global.deep_view() =~= r0.drop_first());
                assert(data.deep_view() =~= d0.push(global_entry(r0[0])));
                assert(data.deep_view() + global_entries(global.deep_view()) =~= d0
                    + global_entries(r0));
            }
        }

        let mut aliases = aliases;
        proof {
            assert(data.deep_view() + alias_entries(aliases.deep_view()) =~= vendor_entries(v0)
                + global_entries(g0) + alias_entries(a0));
        }
        while aliases.len() > 0
            invariant
                data.deep_view() + alias_entries(aliases.deep_view()) == vendor_entries(v0)
                    + global_entries(g0) + alias_entries(a0),
            decreases aliases.len(),
        {
            let ghost d0 = data.deep_view();
            let ghost r0 = aliases.deep_view();
            let x = aliases.remove(0);
            let t = Type::Alias { key: x.0, aliases: x.1 };
            data.push(t);
            proof {
                assert(aliases.deep_view() =~= r0.drop_first());
                assert(data.deep_view() =~= d0.push(alias_entry(r0[0])));
                assert(data.deep_view() + alias_entries(aliases.deep_view()) =~= d0
                    + alias_entries(r0));
            }
        }

        let mut user_templates = user_templates;
        proof {
            assert(data.deep_view() + user_entries(user_templates.deep_view())
                =~= vendor_entries(v0) + global_entries(g0) + alias_entries(a0) + user_entries(
                u0,
            ));
        }
        while user_templates.len() > 0
            invariant
                data.deep_view() + user_entries(user_templates.deep_view()) == vendor_entries(v0)
                    + global_entries(g0) + alias_entries(a0) + user_entries(u0),
            decreases user_templates.len(),
        {
            let ghost d0 = data.deep_view();
            let ghost r0 = user_templates.deep_view();
            let x = user_templates.remove(0);
            let t = Type::UserTemplate { key: x.0, content: x.1 };
            data.push(t);
            proof {
                assert(user_templates.deep_view() =~= r0.drop_first());
                assert(data.deep_view() =~= d0.push(user_entry(r0[0])));
                assert(data.deep_view() + user_entries(user_templates.deep_view()) =~= d0
                    + user_entries(r0));
            }
        }

        proof {
            assert(data.deep_view() =~= data.deep_view() + user_entries(
                user_templates.deep_view(),
            ));
        }
        let sorted = sort_entries(data);
        IgnoreData { data: sorted }
    }
}

} // verus!

verus! {

/// Content of the first vendor template with the given key, if any.
pub open spec fn vendor_lookup(cat: Seq<EntryV>, name: Seq<char>) -> Option<Seq<char>>
    decreases cat.len(),
{
    if cat.len() == 0 {
        None
    } else if rank_v(cat[0]) == 0 && key_v(cat[0]) == name {
        Some(content_v(cat[0]))
    } else {
        vendor_lookup(cat.drop_first(), name)
    }
}

/// Targets of the first alias with the given key, if any.
pub open spec fn alias_lookup(cat: Seq<EntryV>, name: Seq<char>) -> Option<Seq<Seq<char>>>
    decreases cat.len(),
{
    if cat.len() == 0 {
        None
    } else if rank_v(cat[0]) == 1 && key_v(cat[0]) == name {
        Some(targets_v(cat[0]))
    } else {
        alias_lookup(cat.drop_first(), name)
    }
}

/// Content of the first user template with the given key, if any.
pub open spec fn user_lookup(cat: Seq<EntryV>, name: Seq<char>) -> Option<Seq<char>>
    decreases cat.len(),
{
    if cat.len() == 0 {
        None
    } else if rank_v(cat[0]) == 2 && key_v(cat[0]) == name {
        Some(content_v(cat[0]))
    } else {
        user_lookup(cat.drop_first(), name)
    }
}

impl IgnoreData {
    /// The content of the vendor template named `name`, if the catalog
    /// holds one.
    pub fn get_template(&self, name: &str) -> (r: Option<String>)
        ensures
            r.deep_view() == vendor_lookup(self@, name@),
    {
        let mut i: usize = 0;
        proof {
            assert(self@.skip(0) =~= self@);
        }
        while i < self.data.len()
            invariant
                i <= self.data.len(),
                vendor_lookup(self@, name@) == vendor_lookup(self@.skip(i as int), name@),
            decreases self.data.len() - i,
        {
            proof {
                assert(self@.skip(i as int)[0] == self@[i as int]);
                assert(self@.skip(i as int).drop_first() =~= self@.skip(i + 1));
            }
            match &self.data[i] {
                Type::Template { key, content } => {
                    if str_eq(key.as_str(), name) {
                        return Some(content.clone());
                    }
                },
                _ => {},
            }
            i = i + 1;
        }
        proof {
            assert(self@.skip(self.data.len() as int) =~= Seq::<EntryV>::empty());
        }
        None
    }

    /// The target names of the alias named `name`, if the catalog holds
    /// one.
    pub fn get_alias(&self, name: &str) -> (r: Option<Vec<String>>)
        ensures
            r.deep_view() == alias_lookup(self@, name@),
    {
        let mut i: usize = 0;
        proof {
            assert(self@.skip(0) =~= self@);
        }
        while i < self.data.len()
            invariant
                i <= self.data.len(),
                alias_lookup(self@, name@) == alias_lookup(self@.skip(i as int), name@),
            decreases self.data.len() - i,
        {
            proof {
                assert(self@.skip(i as int)[0] == self@[i as int]);
                assert(self@.skip(i as int).drop_first() =~= self@.skip(i + 1));
            }
            match &self.data[i] {
                Type::Alias { key, aliases } => {
                    if str_eq(key.as_str(), name) {
                        return Some(aliases.clone());
                    }
                },
                _ => {},
            }
            i = i + 1;
        }
        proof {
            assert(self@.skip(self.data.len() as int) =~= Seq::<EntryV>::empty());
        }
        None
    }

    /// The content of the user template named `name`, if the catalog
    /// holds one.
    pub fn get_user_template(&self, name: &str) -> (r: Option<String>)
        ensures
            r.deep_view() == user_lookup(self@, name@),
    {
        let mut i: usize = 0;
        proof {
            assert(self@.skip(0) =~= self@);
        }
        while i < self.data.len()
            invariant
                i <= self.data.len(),
                user_lookup(self@, name@) == user_lookup(self@.skip(i as int), name@),
            decreases self.data.len() - i,
        {
            proof {
                assert(self@.skip(i as int)[0] == self@[i as int]);
                assert(self@.skip(i as int).drop_first() =~= self@.skip(i + 1));
            }
            match &self.data[i] {
                Type::UserTemplate { key, content } => {
                    if str_eq(key.as_str(), name) {
                        return Some(content.clone());
                    }
                },
                _ => {},
            }
            i = i + 1;
        }
        proof {
            assert(self@.skip(self.data.len() as int) =~= Seq::<EntryV>::empty());
        }
        None
    }
}

} // verus!

verus! {

/// A catalog key together with the variant of the entry it names.
#[derive(Debug, Clone)]
pub enum TypeName {
    Template(String),
    Alias(String),
    UserTemplate(String),
}

/// Variant rank of a name, ordered as the catalog orders entries.
pub open spec fn name_rank(n: TypeName) -> int {
    match n {
        TypeName::Template(_) => 0,
        TypeName::Alias(_) => 1,
        TypeName::UserTemplate(_) => 2,
    }
}

/// The key a name carries.
pub open spec fn name_key(n: TypeName) -> Seq<char> {
    match n {
        TypeName::Template(s) => s@,
        TypeName::Alias(s) => s@,
        TypeName::UserTemplate(s) => s@,
    }
}

/// Rank and key of a name.
pub open spec fn name_pair(n: TypeName) -> (int, Seq<char>) {
    (name_rank(n), name_key(n))
}

/// Rank and key of an entry.
pub open spec fn pair_of(e: EntryV) -> (int, Seq<char>) {
    (rank_v(e), key_v(e))
}

/// Strict form of the catalog order on (rank, key) pairs.
pub open spec fn pair_lt(a: (int, Seq<char>), b: (int, Seq<char>)) -> bool {
    a.0 < b.0 || (a.0 == b.0 && lex_le(a.1, b.1) && a.1 != b.1)
}

pub proof fn lemma_pair_lt_trans(a: (int, Seq<char>), b: (int, Seq<char>), c: (int, Seq<char>))
    requires
        pair_lt(a, b),
        pair_lt(b, c),
    ensures
        pair_lt(a, c),
{
    if a.0 == b.0 && b.0 == c.0 {
        lemma_lex_le_trans(a.1, b.1, c.1);
        if a.1 == c.1 {
            lemma_lex_le_antisym(a.1, b.1);
        }
    }
}

impl TypeName {
    /// The name of an entry, remembering the entry's variant.
    pub fn from(value: &Type) -> (n: TypeName)
        ensures
            name_pair(n) == pair_of(value.deep_view()),
    {
        match value {
            Type::Template { key, .. } => TypeName::Template(key.clone()),
            Type::Alias { key, .. } => TypeName::Alias(key.clone()),
            Type::UserTemplate { key, .. } => TypeName::UserTemplate(key.clone()),
        }
    }

    /// The bare key.
    pub fn inner(&self) -> (r: &str)
        ensures
            r@ == name_key(*self),
    {
        match self {
            TypeName::Template(name) => name.as_str(),
            TypeName::Alias(name) => name.as_str(),
            TypeName::UserTemplate(name) => name.as_str(),
        }
    }

    /// Substring containment of `name` in this key.
    pub fn contains(&self, name: &str) -> (r: bool)
        ensures
            r == contains_seq(name_key(*self), name@),
    {
        let inner = self.inner();
        str_contains(inner, name)
    }
}

/// Variant rank of a name, for the executable comparison.
fn name_rank_exec(n: &TypeName) -> (r: u8)
    ensures
        r as int == name_rank(*n),
{
    match n {
        TypeName::Template(_) => 0,
        TypeName::Alias(_) => 1,
        TypeName::UserTemplate(_) => 2,
    }
}

/// Whether a name stands for exactly the rank and key of an entry.
fn same_pair(n: &TypeName, t: &Type) -> (r: bool)
    ensures
        r == (name_pair(*n) == pair_of(t.deep_view())),
{
    let nr = name_rank_exec(n);
    let tr = rank_exec(t);
    if nr != tr {
        return false;
    }
    str_eq(n.inner(), t.key())
}

impl IgnoreData {
    /// The names of all entries, in catalog order.
    pub fn keys(&self) -> (r: Vec<TypeName>)
        ensures
            r@.len() == self@.len(),
            forall|i: int| 0 <= i < self@.len() ==> name_pair(r@[i]) == pair_of(self@[i]),
    {
        let mut r: Vec<TypeName> = Vec::new();
        let mut i: usize = 0;
        while i < self.data.len()
            invariant
                i <= self.data.len(),
                r@.len() == i,
                forall|k: int| 0 <= k < i ==> name_pair(r@[k]) == pair_of(self@[k]),
            decreases self.data.len() - i,
        {
            r.push(TypeName::from(&self.data[i]));
            i = i + 1;
        }
        r
    }
}

/// A key qualifies when no substring is given, or when it contains at
/// least one of the given substrings.
#[verifier::opaque]
pub open spec fn pats_match(key: Seq<char>, pats: Seq<Seq<char>>) -> bool {
    pats.len() == 0 || exists|j: int| 0 <= j < pats.len() && contains_seq(key, pats[j])
}

/// Whether `key` contains any of the given substrings (or no substring is
/// given at all).
fn matches_any(key: &str, pats: &Vec<String>) -> (r: bool)
    ensures
        r == pats_match(key@, pats.deep_view()),
{
    proof {
        reveal(pats_match);
    }
    if pats.len() == 0 {
        return true;
    }
    let mut j: usize = 0;
    while j < pats.len()
        invariant
            j <= pats@.len(),
            forall|k: int| 0 <= k < j ==> !contains_seq(key@, pats.deep_view()[k]),
        decreases pats@.len() - j,
    {
        if str_contains(key, pats[j].as_str()) {
            proof {
                reveal(pats_match);
                assert(contains_seq(key@, pats.deep_view()[j as int]));
            }
            return true;
        }
        j = j + 1;
    }
    proof {
        reveal(pats_match);
    }
    false
}

/// The result of a search is strictly increasing in the catalog order.
pub open spec fn sel_sorted(sel: Seq<TypeName>) -> bool {
    forall|m: int, n: int| 0 <= m < n < sel.len() ==> pair_lt(name_pair(sel[m]), name_pair(sel[n]))
}

/// Some element of `sel` carries exactly the pair `p`.
pub open spec fn pair_listed(sel: Seq<TypeName>, p: (int, Seq<char>)) -> bool {
    exists|m: int| 0 <= m < sel.len() && name_pair(#[trigger] sel[m]) == p
}

/// Some qualifying entry among the first `upto` of the catalog carries
/// exactly the pair `p`.
pub open spec fn pair_present(
    cat: Seq<EntryV>,
    pats: Seq<Seq<char>>,
    upto: int,
    p: (int, Seq<char>),
) -> bool {
    exists|k: int|
        0 <= k < upto && pair_of(#[trigger] cat[k]) == p && pats_match(key_v(cat[k]), pats)
}

/// Every qualifying entry among the first `upto` is represented in `sel`.
pub open spec fn sel_covers(
    cat: Seq<EntryV>,
    pats: Seq<Seq<char>>,
    upto: int,
    sel: Seq<TypeName>,
) -> bool {
    forall|k: int|
        0 <= k < upto && pats_match(key_v(#[trigger] cat[k]), pats) ==> pair_listed(
            sel,
            pair_of(cat[k]),
        )
}

/// Every element of `sel` stands for a qualifying entry among the first
/// `upto`.
pub open spec fn sel_sound(
    cat: Seq<EntryV>,
    pats: Seq<Seq<char>>,
    upto: int,
    sel: Seq<TypeName>,
) -> bool {
    forall|m: int|
        0 <= m < sel.len() ==> pair_present(cat, pats, upto, name_pair(#[trigger] sel[m]))
}

proof fn lemma_pair_present_mono(
    cat: Seq<EntryV>,
    pats: Seq<Seq<char>>,
    upto: int,
    p: (int, Seq<char>),
)
    requires
        pair_present(cat, pats, upto, p),
    ensures
        pair_present(cat, pats, upto + 1, p),
{
    let k = choose|k: int|
        0 <= k < upto && pair_of(#[trigger] cat[k]) == p && pats_match(key_v(cat[k]), pats);
    assert(0 <= k < upto + 1 && pair_of(cat[k]) == p && pats_match(key_v(cat[k]), pats));
}

proof fn lemma_sound_mono(cat: Seq<EntryV>, pats: Seq<Seq<char>>, upto: int, sel: Seq<TypeName>)
    requires
        sel_sound(cat, pats, upto, sel),
    ensures
        sel_sound(cat, pats, upto + 1, sel),
{
    assert forall|m: int| 0 <= m < sel.len() implies pair_present(
        cat,
        pats,
        upto + 1,
        name_pair(#[trigger] sel[m]),
    ) by {
        lemma_pair_present_mono(cat, pats, upto, name_pair(sel[m]));
    }
}

proof fn lemma_listed_after_push(sel: Seq<TypeName>, n: TypeName)
    ensures
        forall|p: (int, Seq<char>)|
            pair_listed(sel, p) ==> #[trigger] pair_listed(sel.push(n), p),
        pair_listed(sel.push(n), name_pair(n)),
{
    assert forall|p: (int, Seq<char>)| pair_listed(sel, p) implies #[trigger] pair_listed(
        sel.push(n),
        p,
    ) by {
        let m = choose|m: int| 0 <= m < sel.len() && name_pair(#[trigger] sel[m]) == p;
        assert(0 <= m < sel.push(n).len() && name_pair(sel.push(n)[m]) == p);
    }
    assert(name_pair(sel.push(n)[sel.len() as int]) == name_pair(n));
}

/// Searches the catalog: every entry whose key contains any of the given
/// substrings (all entries when none is given) is represented in the
/// result by its rank and key, each such pair exactly once, in strictly
/// increasing catalog order.
pub fn search(data: &IgnoreData, names: &Vec<String>) -> (sel: Vec<TypeName>)
    requires
        entries_sorted(data@),
    ensures
        sel_sorted(sel@),
        sel_sound(data@, names.deep_view(), data@.len() as int, sel@),
        sel_covers(data@, names.deep_view(), data@.len() as int, sel@),
{
    let ghost cat = data@;
    let ghost pats = names.deep_view();
    let mut sel: Vec<TypeName> = Vec::new();
    let mut i: usize = 0;
    while i < data.data.len()
        invariant
            i <= cat.len(),
            cat == data@,
            pats == names.deep_view(),
            entries_sorted(cat),
            sel_sorted(sel@),
            sel_covers(cat, pats, i as int, sel@),
            sel_sound(cat, pats, i as int, sel@),
        decreases cat.len() - i,
    {
        let e = &data.data[i];
        proof {
            assert(e.deep_view() == cat[i as int]);
        }
        let matched = matches_any(e.key(), names);
        if matched {
            let mut emit = true;
            if sel.len() > 0 {
                if same_pair(&sel[sel.len() - 1], e) {
                    emit = false;
                }
            }
            let ghost sel0 = sel@;
            if emit {
                let n = TypeName::from(e);
                proof {
                    if sel0.len() > 0 {
                        let last = sel0[sel0.len() - 1];
                        let k = choose|k: int|
                            0 <= k < i && pair_of(#[trigger] cat[k]) == name_pair(last)
                                && pats_match(key_v(cat[k]), pats);
                        assert(entry_le(cat[k], cat[i as int]));
                        assert(pair_lt(name_pair(last), pair_of(cat[i as int])));
                        assert forall|m: int| 0 <= m < sel0.len() implies pair_lt(
                            name_pair(sel0[m]),
                            name_pair(n),
                        ) by {
                            if m < sel0.len() - 1 {
                                lemma_pair_lt_trans(
                                    name_pair(sel0[m]),
                                    name_pair(last),
                                    name_pair(n),
                                );
                            }
                        }
                    }
                }
                sel.push(n);
                proof {
                    assert(sel@ =~= sel0.push(n));
                    lemma_listed_after_push(sel0, n);
                    lemma_sound_mono(cat, pats, i as int, sel0);
                    assert forall|m: int| 0 <= m < sel@.len() implies pair_present(
                        cat,
                        pats,
                        i + 1,
                        name_pair(#[trigger] sel@[m]),
                    ) by {
                        if m < sel0.len() {
                            assert(pair_present(cat, pats, i + 1, name_pair(sel0[m])));
                        } else {
                            assert(sel@[m] == n);
                            assert(0 <= i < i + 1 && pair_of(cat[i as int]) == name_pair(n)
                                && pats_match(key_v(cat[i as int]), pats));
                        }
                    }
                    assert forall|k: int|
                        0 <= k < i + 1 && pats_match(key_v(#[trigger] cat[k]), pats)
                            implies pair_listed(sel@, pair_of(cat[k])) by {
                        if k < i {
                            assert(pair_listed(sel0, pair_of(cat[k])));
                            assert(pair_listed(sel0.push(n), pair_of(cat[k])));
                        } else {
                            assert(pair_listed(sel0.push(n), name_pair(n)));
                        }
                    }
                }
            } else {
                proof {
                    let ghost lasti = sel0.len() - 1;
                    assert(name_pair(sel0[lasti]) == pair_of(cat[i as int]));
                    lemma_sound_mono(cat, pats, i as int, sel0);
                    assert forall|k: int|
                        0 <= k < i + 1 && pats_match(key_v(#[trigger] cat[k]), pats)
                            implies pair_listed(sel@, pair_of(cat[k])) by {
                        if k == i {
                            assert(0 <= lasti < sel@.len() && name_pair(sel@[lasti]) == pair_of(
                                cat[k],
                            ));
                        }
                    }
                }
            }
        } else {
            proof {
                lemma_sound_mono(cat, pats, i as int, sel@);
            }
        }
        i = i + 1;
    }
    sel
}

} // verus!

verus! {

/// The listing text: each key on a line of its own, indented by two
/// spaces.
pub open spec fn render_names(keys: Seq<Seq<char>>) -> Seq<char>
    decreases keys.len(),
{
    if keys.len() == 0 {
        Seq::empty()
    } else {
        render_names(keys.drop_last()) + "  "@ + keys.last() + "\n"@
    }
}

/// Renders a selection of names as listing text.
pub fn render_list(sel: &Vec<TypeName>) -> (r: String)
    ensures
        r@ == render_names(sel@.map_values(|n: TypeName| name_key(n))),
{
    let ghost keys = sel@.map_values(|n: TypeName| name_key(n));
    let mut r = String::new();
    let mut k: usize = 0;
    proof {
        assert(sel@.take(0).map_values(|n: TypeName| name_key(n)) =~= Seq::<Seq<char>>::empty());
    }
    while k < sel.len()
        invariant
            k <= sel@.len(),
            keys == sel@.map_values(|n: TypeName| name_key(n)),
            r@ == render_names(sel@.take(k as int).map_values(|n: TypeName| name_key(n))),
        decreases sel@.len() - k,
    {
        let ghost prev = sel@.take(k as int).map_values(|n: TypeName| name_key(n));
        r.append("  ");
        r.append(sel[k].inner());
        r.append("\n");
        proof {
            let cur = sel@.take(k + 1).map_values(|n: TypeName| name_key(n));
            assert(cur.drop_last() =~= prev);
            assert(cur.last() == name_key(sel@[k as int]));
        }
        k = k + 1;
    }
    proof {
        assert(sel@.take(sel@.len() as int) =~= sel@);
    }
    r
}

/// Lists the catalog: searches it with the given substrings and renders
/// the selected keys, one per line. The selection is the one `search`
/// gives: qualifying keys, each exactly once, in catalog order.
pub fn list(data: &IgnoreData, names: &Vec<String>) -> (r: String)
    requires
        entries_sorted(data@),
    ensures
        exists|sel: Seq<TypeName>|
            (#[trigger] sel_sorted(sel) && sel_sound(
                data@,
                names.deep_view(),
                data@.len() as int,
                sel,
            ) && sel_covers(data@, names.deep_view(), data@.len() as int, sel) && r@
                == render_names(sel.map_values(|n: TypeName| name_key(n)))),
{
    let sel = search(data, names);
    let r = render_list(&sel);
    proof {
        assert(sel_sorted(sel@) && sel_sound(data@, names.deep_view(), data@.len() as int, sel@)
            && sel_covers(data@, names.deep_view(), data@.len() as int, sel@) && r@
            == render_names(sel@.map_values(|n: TypeName| name_key(n))));
    }
    r
}

/// The alias entries of the catalog, in order: key and targets of each.
pub open spec fn aliases_of(cat: Seq<EntryV>) -> Seq<(Seq<char>, Seq<Seq<char>>)>
    decreases cat.len(),
{
    if cat.len() == 0 {
        Seq::empty()
    } else if rank_v(cat[0]) == 1 {
        seq![(key_v(cat[0]), targets_v(cat[0]))] + aliases_of(cat.drop_first())
    } else {
        aliases_of(cat.drop_first())
    }
}

/// The user template entries of the catalog, in order: key and content of
/// each.
pub open spec fn user_templates_of(cat: Seq<EntryV>) -> Seq<(Seq<char>, Seq<char>)>
    decreases cat.len(),
{
    if cat.len() == 0 {
        Seq::empty()
    } else if rank_v(cat[0]) == 2 {
        seq![(key_v(cat[0]), content_v(cat[0]))] + user_templates_of(cat.drop_first())
    } else {
        user_templates_of(cat.drop_first())
    }
}

impl IgnoreData {
    /// All aliases with their targets, in catalog order.
    pub fn list_aliases(&self) -> (r: Vec<(String, Vec<String>)>)
        ensures
            r.deep_view() == aliases_of(self@),
    {
        let mut r: Vec<(String, Vec<String>)> = Vec::new();
        let mut i: usize = 0;
        proof {
            assert(self@.skip(0) =~= self@);
            assert(r.deep_view() + aliases_of(self@) =~= aliases_of(self@));
        }
        while i < self.data.len()
            invariant
                i <= self.data.len(),
                aliases_of(self@) == r.deep_view() + aliases_of(self@.skip(i as int)),
            decreases self.data.len() - i,
        {
            let ghost r0 = r.deep_view();
            proof {
                assert(self@.skip(i as int)[0] == self@[i as int]);
                assert(self@.skip(i as int).drop_first() =~= self@.skip(i + 1));
            }
            match &self.data[i] {
                Type::Alias { key, aliases } => {
                    r.push((key.clone(), aliases.clone()));
                    proof {
                        assert(r.deep_view() =~= r0.push((key_v(self@[i as int]), targets_v(
                            self@[i as int],
                        ))));
                        assert(r.deep_view() + aliases_of(self@.skip(i + 1)) =~= r0 + aliases_of(
                            self@.skip(i as int),
                        ));
                    }
                },
                _ => {},
            }
            i = i + 1;
        }
        proof {
            assert(self@.skip(self.data.len() as int) =~= Seq::<EntryV>::empty());
            assert(r.deep_view() + aliases_of(Seq::<EntryV>::empty()) =~= r.deep_view());
        }
        r
    }

    /// All user templates with their content, in catalog order.
    pub fn list_templates(&self) -> (r: Vec<(String, String)>)
        ensures
            r.deep_view() == user_templates_of(self@),
    {
        let mut r: Vec<(String, String)> = Vec::new();
        let mut i: usize = 0;
        proof {
            assert(self@.skip(0) =~= self@);
            assert(r.deep_view() + user_templates_of(self@) =~= user_templates_of(self@));
        }
        while i < self.data.len()
            invariant
                i <= self.data.len(),
                user_templates_of(self@) == r.deep_view() + user_templates_of(
                    self@.skip(i as int),
                ),
            decreases self.data.len() - i,
        {
            let ghost r0 = r.deep_view();
            proof {
                assert(self@.skip(i as int)[0] == self@[i as int]);
                assert(self@.skip(i as int).drop_first() =~= self@.skip(i + 1));
            }
            match &self.data[i] {
                Type::UserTemplate { key, content } => {
                    r.push((key.clone(), content.clone()));
                    proof {
                        assert(r.deep_view() =~= r0.push((key_v(self@[i as int]), content_v(
                            self@[i as int],
                        ))));
                        assert(r.deep_view() + user_templates_of(self@.skip(i + 1)) =~= r0
                            + user_templates_of(self@.skip(i as int)));
                    }
                },
                _ => {},
            }
            i = i + 1;
        }
        proof {
            assert(self@.skip(self.data.len() as int) =~= Seq::<EntryV>::empty());
            assert(r.deep_view() + user_templates_of(Seq::<EntryV>::empty()) =~= r.deep_view());
        }
        r
    }
}

} // verus!
