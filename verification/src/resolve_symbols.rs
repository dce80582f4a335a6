//! Cross-image symbol resolution: maps each imported symbol to the image
//! that exports a matching definition. Symbols are keyed by name and
//! version; version decoding is deferred, so today only names distinguish
//! keys. When several dependencies export the same symbol, the dependency
//! iterated last wins — the documented tie-break.

use crate::summarize::{
    BinaryType, DynamicSymbolReference, ElfSummary, ElfSummaryModel, VersionedSymbol,
    VersionedSymbolModel,
};
use crate::text::{lemma_lex_lt_connected, lemma_lex_lt_trans, lex_lt, string_eq, string_lt};
use vstd::prelude::*;

verus! {

/// Strict order on symbol keys: by name, then by version, an absent
/// version first. This is the iteration order of the provider map.
pub open spec fn vsym_lt(a: VersionedSymbolModel, b: VersionedSymbolModel) -> bool {
    ||| lex_lt(a.name, b.name)
    ||| (a.name == b.name && match (a.version, b.version) {
        (Option::None, Option::Some(_)) => true,
        (Option::Some(va), Option::Some(vb)) => lex_lt(va, vb),
        _ => false,
    })
}

pub proof fn lemma_vsym_lt_trans(a: VersionedSymbolModel, b: VersionedSymbolModel, c: VersionedSymbolModel)
    requires
        vsym_lt(a, b),
        vsym_lt(b, c),
    ensures
        vsym_lt(a, c),
{
    if lex_lt(a.name, b.name) && lex_lt(b.name, c.name) {
        lemma_lex_lt_trans(a.name, b.name, c.name);
    } else if a.name == b.name && b.name == c.name {
        match (a.version, b.version, c.version) {
            (Option::Some(va), Option::Some(vb), Option::Some(vc)) => {
                lemma_lex_lt_trans(va, vb, vc);
            },
            _ => {},
        }
    }
}

pub proof fn lemma_vsym_lt_irrefl(a: VersionedSymbolModel)
    ensures
        !vsym_lt(a, a),
{
    crate::text::lemma_lex_lt_irrefl(a.name);
    match a.version {
        Option::Some(v) => crate::text::lemma_lex_lt_irrefl(v),
        Option::None => {},
    }
}

pub proof fn lemma_vsym_lt_connected(a: VersionedSymbolModel, b: VersionedSymbolModel)
    requires
        !vsym_lt(a, b),
        !vsym_lt(b, a),
    ensures
        a == b,
{
    lemma_lex_lt_connected(a.name, b.name);
    match (a.version, b.version) {
        (Option::Some(va), Option::Some(vb)) => {
            lemma_lex_lt_connected(va, vb);
            assert(a =~= b);
        },
        (Option::None, Option::None) => {
            assert(a =~= b);
        },
        _ => {
            assert(false);
        },
    }
}

/// Compares two symbol keys in the order of `vsym_lt` over their values.
pub fn versioned_symbol_lt(a: &VersionedSymbol, b: &VersionedSymbol) -> (r: bool)
    ensures
        r == vsym_lt(a@, b@),
{
    if string_lt(&a.name, &b.name) {
        return true;
    }
    if !string_eq(&a.name, &b.name) {
        return false;
    }
    match (&a.version, &b.version) {
        (Option::None, Option::Some(_)) => true,
        (Option::Some(va), Option::Some(vb)) => string_lt(va, vb),
        _ => false,
    }
}

/// The map from an imported symbol to the path of the image providing it,
/// ordered strictly by symbol key.
pub struct ProviderMap {
    pub entries: Vec<(VersionedSymbol, String)>,
}

impl View for ProviderMap {
    type V = Seq<(VersionedSymbolModel, Seq<char>)>;

    open spec fn view(&self) -> Seq<(VersionedSymbolModel, Seq<char>)> {
        self.entries@.map_values(|e: (VersionedSymbol, String)| (e.0@, e.1@))
    }
}

impl ProviderMap {
    /// The symbol keys, in iteration order.
    pub open spec fn key_seq(self) -> Seq<VersionedSymbolModel> {
        self@.map_values(|e: (VersionedSymbolModel, Seq<char>)| e.0)
    }

    /// The keys are strictly sorted; in particular no key repeats.
    pub open spec fn wf(self) -> bool {
        forall|i: int, j: int|
            0 <= i < j < self@.len() ==> vsym_lt(self@[i].0, self@[j].0)
    }

    /// Whether `k` is among the keys.
    pub open spec fn contains_key(self, k: VersionedSymbolModel) -> bool {
        exists|i: int| 0 <= i < self@.len() && self@[i].0 == k
    }

    pub fn new() -> (m: ProviderMap)
        ensures
            m.wf(),
            m@ == Seq::<(VersionedSymbolModel, Seq<char>)>::empty(),
    {
        let m = ProviderMap { entries: Vec::new() };
        proof {
            assert(m@ =~= Seq::<(VersionedSymbolModel, Seq<char>)>::empty());
        }
        m
    }

    pub fn len(&self) -> (n: usize)
        ensures
            n == self@.len(),
    {
        self.entries.len()
    }

    /// Whether the map holds an entry under `k`.
    pub fn contains(&self, k: &VersionedSymbol) -> (r: bool)
        ensures
            r == self.contains_key(k@),
    {
        let mut i: usize = 0;
        while i < self.entries.len()
            invariant
                i <= self@.len(),
                self@.len() == self.entries@.len(),
                forall|j: int| 0 <= j < i ==> self@[j].0 != k@,
            decreases self@.len() - i,
        {
            let same = if string_eq(&self.entries[i].0.name, &k.name) {
                match (&self.entries[i].0.version, &k.version) {
                    (Option::None, Option::None) => true,
                    (Option::Some(va), Option::Some(vb)) => string_eq(va, vb),
                    _ => false,
                }
            } else {
                false
            };
            if same {
                assert(self@[i as int].0 =~= k@);
                return true;
            }
            assert(self@[i as int].0 != k@);
            i = i + 1;
        }
        false
    }

    /// Inserts a new entry at its place in the key order.
    pub fn insert(&mut self, key: VersionedSymbol, path: String)
        requires
            old(self).wf(),
            !old(self).contains_key(key@),
        ensures
            final(self).wf(),
            final(self)@.len() == old(self)@.len() + 1,
            exists|p: int|
                0 <= p <= old(self)@.len() && final(self)@ == old(self)@.subrange(0, p).push(
                    (key@, path@),
                ) + old(self)@.subrange(p, old(self)@.len() as int),
    {
        let ghost before = self@;
        let mut p: usize = 0;
        while p < self.entries.len() && versioned_symbol_lt(&self.entries[p].0, &key)
            invariant
                self@ == before,
                p <= self@.len(),
                self@.len() == self.entries@.len(),
                forall|j: int| 0 <= j < p ==> vsym_lt(self@[j].0, key@),
            decreases self@.len() - p,
        {
            p = p + 1;
        }
        assert(p < self.entries@.len() ==> !vsym_lt(self@[p as int].0, key@));
        self.entries.insert(p, (key, path));
        proof {
            assert(self@ =~~= before.subrange(0, p as int).push((key@, path@)) + before.subrange(
                p as int,
                before.len() as int,
            ));
            let now = self@;
            assert forall|i: int, j: int|
                0 <= i < j < now.len() implies vsym_lt(now[i].0, now[j].0) by {
                if j < p {
                    assert(now[i].0 == before[i].0 && now[j].0 == before[j].0);
                } else if i > p {
                    assert(now[i].0 == before[i - 1].0 && now[j].0 == before[j - 1].0);
                } else if i < p && j == p {
                    assert(now[i].0 == before[i].0 && now[j].0 == key@);
                } else if i == p {
                    assert(now[i].0 == key@ && now[j].0 == before[j - 1].0);
                    lemma_key_after(before, key@, j - 1, p as int);
                } else {
                    assert(i < p && j > p);
                    assert(now[i].0 == before[i].0 && now[j].0 == before[j - 1].0);
                    lemma_key_after(before, key@, j - 1, p as int);
                    lemma_vsym_lt_trans(before[i].0, key@, before[j - 1].0);
                }
            }
        }
    }
}

/// In a strictly sorted provider map where `key` is absent and not ordered
/// after the entry at `p`, every entry at or after `p` is ordered after
/// `key`.
proof fn lemma_key_after(
    before: Seq<(VersionedSymbolModel, Seq<char>)>,
    key: VersionedSymbolModel,
    j: int,
    p: int,
)
    requires
        forall|a: int, b: int| 0 <= a < b < before.len() ==> vsym_lt(before[a].0, before[b].0),
        forall|a: int| 0 <= a < before.len() ==> before[a].0 != key,
        0 <= p <= j < before.len(),
        !vsym_lt(before[p].0, key),
    ensures
        vsym_lt(key, before[j].0),
{
    if !vsym_lt(key, before[p].0) {
        lemma_vsym_lt_connected(before[p].0, key);
        assert(false);
    }
    if j > p {
        lemma_vsym_lt_trans(key, before[p].0, before[j].0);
    }
}

/// The names an image imports, as a set.
pub open spec fn spec_ref_names(refs: Seq<crate::summarize::DynamicSymbolReferenceModel>) -> Set<
    Seq<char>,
> {
    Set::new(|n: Seq<char>| exists|i: int| 0 <= i < refs.len() && refs[i].symbol.name == n)
}

/// Whether a summary is a dynamic image exporting the symbol `k`.
pub open spec fn spec_provides(m: ElfSummaryModel, k: VersionedSymbolModel) -> bool {
    match m.binary_type {
        crate::summarize::BinaryTypeModel::Dynamic(d) => exists|j: int|
            0 <= j < d.provided_dynamic_symbols.len() && d.provided_dynamic_symbols[j].symbol
                == k,
        crate::summarize::BinaryTypeModel::Static => false,
    }
}

/// The greatest index below `i` of a dependency whose exports contain
/// `k`, or a negative value when none exports it.
pub open spec fn spec_last_exporter(deps: Seq<ElfSummary>, k: VersionedSymbolModel, i: int) -> int
    decreases i,
{
    if i <= 0 {
        -1
    } else if spec_provides(deps[i - 1]@, k) {
        i - 1
    } else {
        spec_last_exporter(deps, k, i - 1)
    }
}

/// A dependency that exports `k`, with none exporting it later, is the
/// last exporter.
pub proof fn lemma_last_exporter_pins(deps: Seq<ElfSummary>, k: VersionedSymbolModel, d: int, i: int)
    requires
        0 <= d < i <= deps.len(),
        spec_provides(deps[d]@, k),
        forall|dd: int| d < dd < i ==> !spec_provides(deps[dd]@, k),
    ensures
        spec_last_exporter(deps, k, i) == d,
    decreases i,
{
    if i - 1 > d {
        lemma_last_exporter_pins(deps, k, d, i - 1);
    }
}

/// Whether a list of strings holds one whose value is `n`.
fn contains_name(names: &Vec<String>, n: &String) -> (r: bool)
    ensures
        r == names@.map_values(|s: String| s@).contains(n@),
{
    let ghost views = names@.map_values(|s: String| s@);
    let mut i: usize = 0;
    while i < names.len()
        invariant
            i <= names@.len(),
            views == names@.map_values(|s: String| s@),
            forall|j: int| 0 <= j < i ==> views[j] != n@,
        decreases names@.len() - i,
    {
        if string_eq(&names[i], n) {
            assert(views[i as int] == n@);
            return true;
        }
        i = i + 1;
    }
    assert(!views.contains(n@));
    false
}

/// Records the exports of one image into the provider map: every exported
/// symbol whose name is among `needed` gets an entry pointing at `path`,
/// unless the map already holds that symbol. Walking images from the last
/// to the first therefore realizes the documented tie-break: the image
/// iterated last provides the symbol.
#[verifier::loop_isolation(false)]
#[verifier::rlimit(100)]
pub(crate) fn record_providers(res: &mut ProviderMap, needed: &Vec<String>, image: &ElfSummary, path: &String)
    requires
        old(res).wf(),
    ensures
        final(res).wf(),
        forall|k: VersionedSymbolModel|
            old(res).contains_key(k) ==> final(res).contains_key(k),
        forall|k: VersionedSymbolModel|
            #[trigger] spec_provides(image@, k) && needed@.map_values(|s: String| s@).contains(
                k.name,
            ) ==> final(res).contains_key(k),
        forall|k: VersionedSymbolModel|
            final(res).contains_key(k) ==> old(res).contains_key(k) || (spec_provides(image@, k)
                && needed@.map_values(|s: String| s@).contains(k.name)),
        // entries whose key was already recorded are the old pairs, value
        // included; entries with a fresh key carry this image's path
        forall|e: int|
            0 <= e < final(res)@.len() && old(res).contains_key(
                (#[trigger] final(res)@[e]).0,
            ) ==> exists|b: int| 0 <= b < old(res)@.len() && old(res)@[b] == final(res)@[e],
        forall|e: int|
            0 <= e < final(res)@.len() && !old(res).contains_key(
                (#[trigger] final(res)@[e]).0,
            ) ==> final(res)@[e].1 == path@,
{
    proof {
        assert forall|e: int|
            0 <= e < res@.len() && old(res).contains_key((#[trigger] res@[e]).0) implies exists|
            b: int,
        | 0 <= b < old(res)@.len() && old(res)@[b] == res@[e] by {
            assert(res@[e] == old(res)@[e]);
        }
        assert forall|e: int|
            0 <= e < res@.len() implies old(res).contains_key((#[trigger] res@[e]).0) by {
            assert(old(res)@[e].0 == res@[e].0);
        }
    }
    let dyn_data = match &image.binary_type {
        BinaryType::Static => {
            return ;
        },
        BinaryType::Dynamic(d) => d,
    };
    let ghost needed_v = needed@.map_values(|s: String| s@);
    let ghost exps = dyn_data.provided_dynamic_symbols@.map_values(
        |e: crate::summarize::ExportedDynamicSymbol| e@,
    );
    let count = dyn_data.provided_dynamic_symbols.len();
    let mut j: usize = count;
    while j > 0
        invariant
            j <= count,
            res.wf(),
            forall|k: VersionedSymbolModel|
                old(res).contains_key(k) ==> res.contains_key(k),
            forall|jj: int|
                j <= jj < count && needed_v.contains(exps[jj].symbol.name) ==> res.contains_key(
                    #[trigger] exps[jj].symbol,
                ),
            forall|k: VersionedSymbolModel|
                res.contains_key(k) ==> old(res).contains_key(k) || (spec_provides(image@, k)
                    && needed_v.contains(k.name)),
            forall|e: int|
                0 <= e < res@.len() && old(res).contains_key((#[trigger] res@[e]).0)
                    ==> exists|b: int| 0 <= b < old(res)@.len() && old(res)@[b] == res@[e],
            forall|e: int|
                0 <= e < res@.len() && !old(res).contains_key((#[trigger] res@[e]).0)
                    ==> res@[e].1 == path@,
        decreases j,
    {
        j = j - 1;
        let exp = &dyn_data.provided_dynamic_symbols[j];
        assert(exp@ == exps[j as int]);
        if contains_name(needed, &exp.symbol.name) {
            if !res.contains(&exp.symbol) {
                let ghost before = res@;
                let ghost before_map = *res;
                res.insert(exp.symbol.duplicate(), path.clone());
                proof {
                    let p = choose|p: int|
                        0 <= p <= before.len() && res@ == before.subrange(0, p).push(
                            (exps[j as int].symbol, path@),
                        ) + before.subrange(p, before.len() as int);
                    assert forall|k: VersionedSymbolModel|
                        before_map.contains_key(k) implies res.contains_key(k) by {
                        let b = choose|b: int| 0 <= b < before.len() && before[b].0 == k;
                        if b < p {
                            assert(res@[b].0 == k);
                        } else {
                            assert(res@[b + 1].0 == k);
                        }
                    }
                    assert(res.contains_key(exps[j as int].symbol)) by {
                        assert(res@[p].0 == exps[j as int].symbol);
                    }
                    assert(spec_provides(image@, exps[j as int].symbol)) by {
                        assert(exps[j as int].symbol == image@.binary_type->Dynamic_0
                            .provided_dynamic_symbols[j as int].symbol);
                    }
                    assert forall|k: VersionedSymbolModel|
                        res.contains_key(k) implies before_map.contains_key(k) || (
                    spec_provides(image@, k) && needed_v.contains(k.name)) by {
                        let i = choose|i: int| 0 <= i < res@.len() && res@[i].0 == k;
                        if i < p {
                            assert(before[i].0 == k);
                        } else if i > p {
                            assert(before[i - 1].0 == k);
                        } else {
                            assert(k == exps[j as int].symbol);
                        }
                    }
                    assert forall|e: int|
                        0 <= e < res@.len() && old(res).contains_key(
                            (#[trigger] res@[e]).0,
                        ) implies exists|b: int|
                        0 <= b < old(res)@.len() && old(res)@[b] == res@[e] by {
                        if e < p {
                            assert(res@[e] == before[e]);
                        } else if e > p {
                            assert(res@[e] == before[e - 1]);
                        } else {
                            assert(res@[p].0 == exps[j as int].symbol);
                            assert(!before_map.contains_key(exps[j as int].symbol));
                            assert(false);
                        }
                    }
                    assert forall|e: int|
                        0 <= e < res@.len() && !old(res).contains_key(
                            (#[trigger] res@[e]).0,
                        ) implies res@[e].1 == path@ by {
                        if e < p {
                            assert(res@[e] == before[e]);
                        } else if e > p {
                            assert(res@[e] == before[e - 1]);
                        } else {
                            assert(res@[p].1 == path@);
                        }
                    }
                }
            }
        }
        assert(needed_v.contains(exps[j as int].symbol.name) ==> res.contains_key(
            exps[j as int].symbol,
        ));
    }
    // every needed export is resolved once the walk reaches index zero
    assert forall|k: VersionedSymbolModel|
        #[trigger] spec_provides(image@, k) && needed_v.contains(k.name) implies res.contains_key(
        k,
    ) by {
        let jj = choose|jj: int|
            0 <= jj < image@.binary_type->Dynamic_0.provided_dynamic_symbols.len()
                && image@.binary_type->Dynamic_0.provided_dynamic_symbols[jj].symbol == k;
        assert(exps[jj].symbol == k);
    }
}

/// Determines which dependency provides each dynamic symbol that the given
/// references import. The result maps imported symbols to the path of a
/// dependency exporting them; dependencies are credited from the last to
/// the first, so when several export the same symbol the one iterated last
/// keeps it — the documented tie-break.
#[verifier::loop_isolation(false)]
pub fn resolve_symbols(dyn_sym_refs: &Vec<DynamicSymbolReference>, deps: &Vec<ElfSummary>) -> (r:
    ProviderMap)
    ensures
        r.wf(),
        // every entry is an imported name that some dependency exports
        forall|k: VersionedSymbolModel|
            r.contains_key(k) ==> (exists|d: int|
                0 <= d < deps@.len() && spec_provides(deps@[d]@, k)) && spec_ref_names(
                dyn_sym_refs@.map_values(|x: DynamicSymbolReference| x@),
            ).contains(k.name),
        // every imported name exported by some dependency is resolved
        forall|k: VersionedSymbolModel, d: int|
            0 <= d < deps@.len() && #[trigger] spec_provides(deps@[d]@, k) && spec_ref_names(
                dyn_sym_refs@.map_values(|x: DynamicSymbolReference| x@),
            ).contains(k.name) ==> r.contains_key(k),
        // each entry carries the path of the last dependency, in `deps`
        // order, whose exports contain the key — the documented tie-break
        forall|e: int|
            0 <= e < r@.len() ==> 0 <= spec_last_exporter(
                deps@,
                (#[trigger] r@[e]).0,
                deps@.len() as int,
            ) && r@[e].1 == deps@[spec_last_exporter(deps@, r@[e].0, deps@.len() as int)]@.filename,
{
    let ghost refs_v = dyn_sym_refs@.map_values(|x: DynamicSymbolReference| x@);
    let mut needed: Vec<String> = Vec::new();
    let mut i: usize = 0;
    while i < dyn_sym_refs.len()
        invariant
            i <= dyn_sym_refs@.len(),
            needed@.map_values(|s: String| s@) =~= refs_v.subrange(0, i as int).map_values(
                |x: crate::summarize::DynamicSymbolReferenceModel| x.symbol.name,
            ),
        decreases dyn_sym_refs@.len() - i,
    {
        let ghost before = needed@.map_values(|s: String| s@);
        needed.push(dyn_sym_refs[i].symbol.name.clone());
        proof {
            assert(needed@.map_values(|s: String| s@) =~= before.push(refs_v[i as int].symbol.name));
            assert(refs_v.subrange(0, i + 1).map_values(
                |x: crate::summarize::DynamicSymbolReferenceModel| x.symbol.name,
            ) =~= refs_v.subrange(0, i as int).map_values(
                |x: crate::summarize::DynamicSymbolReferenceModel| x.symbol.name,
            ).push(refs_v[i as int].symbol.name));
        }
        i = i + 1;
    }
    proof {
        assert(refs_v.subrange(0, refs_v.len() as int) =~= refs_v);
        assert forall|n: Seq<char>|
            needed@.map_values(|s: String| s@).contains(n) == spec_ref_names(refs_v).contains(
            n,
        ) by {
            let names = needed@.map_values(|s: String| s@);
            if names.contains(n) {
                let ix = choose|ix: int| 0 <= ix < names.len() && names[ix] == n;
                assert(refs_v[ix].symbol.name == n);
            }
            if spec_ref_names(refs_v).contains(n) {
                let ix = choose|ix: int| 0 <= ix < refs_v.len() && refs_v[ix].symbol.name == n;
                assert(names[ix] == n);
            }
        }
    }
    let mut res = ProviderMap::new();
    let mut d: usize = deps.len();
    while d > 0
        invariant
            d <= deps@.len(),
            res.wf(),
            forall|k: VersionedSymbolModel, dd: int|
                d <= dd < deps@.len() && #[trigger] spec_provides(deps@[dd]@, k)
                    && needed@.map_values(|s: String| s@).contains(k.name) ==> res.contains_key(
                    k,
                ),
            forall|k: VersionedSymbolModel|
                res.contains_key(k) ==> (exists|dd: int|
                    0 <= dd < deps@.len() && spec_provides(deps@[dd]@, k))
                    && needed@.map_values(|s: String| s@).contains(k.name),
            forall|e: int|
                0 <= e < res@.len() ==> 0 <= spec_last_exporter(
                    deps@,
                    (#[trigger] res@[e]).0,
                    deps@.len() as int,
                ) && res@[e].1 == deps@[spec_last_exporter(
                    deps@,
                    res@[e].0,
                    deps@.len() as int,
                )]@.filename,
        decreases d,
    {
        d = d - 1;
        let ghost before_map = res;
        record_providers(&mut res, &needed, &deps[d], &deps[d].filename);
        proof {
            assert forall|e: int|
                0 <= e < res@.len() implies 0 <= spec_last_exporter(
                deps@,
                (#[trigger] res@[e]).0,
                deps@.len() as int,
            ) && res@[e].1 == deps@[spec_last_exporter(
                deps@,
                res@[e].0,
                deps@.len() as int,
            )]@.filename by {
                if before_map.contains_key(res@[e].0) {
                    let b = choose|b: int|
                        0 <= b < before_map@.len() && before_map@[b] == res@[e];
                } else {
                    assert(res@[e].1 == deps@[d as int]@.filename);
                    assert(spec_provides(deps@[d as int]@, res@[e].0) && needed@.map_values(
                        |s: String| s@,
                    ).contains(res@[e].0.name));
                    assert forall|dd: int|
                        (d as int) < dd < deps@.len() implies !spec_provides(
                        deps@[dd]@,
                        res@[e].0,
                    ) by {
                        if spec_provides(deps@[dd]@, res@[e].0) {
                            assert(before_map.contains_key(res@[e].0));
                        }
                    }
                    lemma_last_exporter_pins(deps@, res@[e].0, d as int, deps@.len() as int);
                }
            }
        }
    }
    res
}

} // verus!
