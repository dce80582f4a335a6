//! The engine facade: decodes the root image, walks its transitive
//! dependencies, and links every imported symbol to a provider, yielding
//! the resolved artifact in one read-only value.

use crate::depmap::DependencyMap;
use crate::dependencies::{
    resolve_dependencies, spec_entry_needs, spec_opt_needs, spec_probe, FileTable,
};
use crate::resolve_symbols::{record_providers, spec_provides, ProviderMap};
use crate::summarize::{
    summarize_bytes, spec_needed, spec_summarize, BinaryType, BinaryTypeModel,
    DynamicSymbolReferenceModel, ElfSummary, ElfSummaryModel, VersionedSymbolModel, WalkError,
};
use vstd::prelude::*;

verus! {

/// The resolved artifact: the root image, its transitive dependencies by
/// name in lexicographic order, and the provider of each resolved import.
pub struct LinkGraph {
    pub root: ElfSummary,
    pub dependencies: DependencyMap,
    pub provider_of: ProviderMap,
}

/// Whether a summary is a dynamic image that imports the name `n`.
pub open spec fn spec_imports_name(m: ElfSummaryModel, n: Seq<char>) -> bool {
    match m.binary_type {
        BinaryTypeModel::Dynamic(d) => exists|i: int|
            0 <= i < d.dynamic_symbol_refs.len() && d.dynamic_symbol_refs[i].symbol.name == n,
        BinaryTypeModel::Static => false,
    }
}

/// Whether a resolution outcome is an image that imports the name `n`.
pub open spec fn spec_opt_imports_name(v: Option<ElfSummaryModel>, n: Seq<char>) -> bool {
    match v {
        Option::Some(s) => spec_imports_name(s, n),
        Option::None => false,
    }
}

/// Whether a resolution outcome is an image whose exports contain `k`.
pub open spec fn spec_opt_provides(v: Option<ElfSummaryModel>, k: VersionedSymbolModel) -> bool {
    match v {
        Option::Some(s) => spec_provides(s, k),
        Option::None => false,
    }
}

/// The filename of a resolution outcome, empty for a miss.
pub open spec fn spec_opt_filename(v: Option<ElfSummaryModel>) -> Seq<char> {
    match v {
        Option::Some(s) => s.filename,
        Option::None => Seq::empty(),
    }
}

/// Whether the root or some resolved dependency of the map imports `n` —
/// the loader's closure-level view of the imports.
pub open spec fn spec_graph_imports(
    root: ElfSummaryModel,
    m: Seq<(Seq<char>, Option<ElfSummaryModel>)>,
    n: Seq<char>,
) -> bool {
    spec_imports_name(root, n) || exists|j: int|
        0 <= j < m.len() && spec_opt_imports_name(m[j].1, n)
}

/// Whether some resolved dependency of the map exports `k`.
pub open spec fn spec_resolved_provides(
    m: Seq<(Seq<char>, Option<ElfSummaryModel>)>,
    k: VersionedSymbolModel,
) -> bool {
    exists|j: int| 0 <= j < m.len() && spec_opt_provides(m[j].1, k)
}

/// The greatest entry index below `i` whose resolved image exports `k`,
/// or a negative value when none does. Since the map's entries stand in
/// lexicographic name order, this is the lexicographically last provider.
pub open spec fn spec_last_resolved_exporter(
    m: Seq<(Seq<char>, Option<ElfSummaryModel>)>,
    k: VersionedSymbolModel,
    i: int,
) -> int
    decreases i,
{
    if i <= 0 {
        -1
    } else if spec_opt_provides(m[i - 1].1, k) {
        i - 1
    } else {
        spec_last_resolved_exporter(m, k, i - 1)
    }
}

/// An entry whose image exports `k`, with none exporting it later, is the
/// last resolved exporter.
proof fn lemma_last_resolved_exporter_pins(
    m: Seq<(Seq<char>, Option<ElfSummaryModel>)>,
    k: VersionedSymbolModel,
    d: int,
    i: int,
)
    requires
        0 <= d < i <= m.len(),
        spec_opt_provides(m[d].1, k),
        forall|dd: int| d < dd < i ==> !spec_opt_provides(m[dd].1, k),
    ensures
        spec_last_resolved_exporter(m, k, i) == d,
    decreases i,
{
    if i - 1 > d {
        lemma_last_resolved_exporter_pins(m, k, d, i - 1);
    }
}

/// The names a summary imports, in table order; none for a static image.
pub open spec fn spec_import_names(s: ElfSummaryModel) -> Seq<Seq<char>> {
    match s.binary_type {
        BinaryTypeModel::Dynamic(d) => d.dynamic_symbol_refs.map_values(
            |r: DynamicSymbolReferenceModel| r.symbol.name,
        ),
        BinaryTypeModel::Static => Seq::empty(),
    }
}

/// The names a resolution outcome imports; none for a miss.
pub open spec fn spec_opt_import_names(v: Option<ElfSummaryModel>) -> Seq<Seq<char>> {
    match v {
        Option::Some(s) => spec_import_names(s),
        Option::None => Seq::empty(),
    }
}

/// The imported names of the first `e` entries of the map, concatenated
/// in entry order.
pub open spec fn spec_entries_import_names(
    m: Seq<(Seq<char>, Option<ElfSummaryModel>)>,
    e: int,
) -> Seq<Seq<char>>
    decreases e,
{
    if e <= 0 {
        Seq::empty()
    } else {
        spec_entries_import_names(m, e - 1) + spec_opt_import_names(m[e - 1].1)
    }
}

/// A name stands among the imported names of the first `e` entries
/// exactly when some of those entries resolved to an image importing it.
proof fn lemma_entries_import_names_contains(
    m: Seq<(Seq<char>, Option<ElfSummaryModel>)>,
    e: int,
    n: Seq<char>,
)
    requires
        0 <= e <= m.len(),
    ensures
        spec_entries_import_names(m, e).contains(n) <==> exists|j: int|
            0 <= j < e && spec_opt_imports_name(#[trigger] m[j].1, n),
    decreases e,
{
    if e > 0 {
        lemma_entries_import_names_contains(m, e - 1, n);
        let a = spec_entries_import_names(m, e - 1);
        let b = spec_opt_import_names(m[e - 1].1);
        assert(b.contains(n) <==> spec_opt_imports_name(m[e - 1].1, n)) by {
            match m[e - 1].1 {
                Option::Some(s) => {
                    match s.binary_type {
                        BinaryTypeModel::Dynamic(d) => {
                            if b.contains(n) {
                                let ix = choose|ix: int| 0 <= ix < b.len() && b[ix] == n;
                                assert(d.dynamic_symbol_refs[ix].symbol.name == n);
                            }
                            if spec_imports_name(s, n) {
                                let ix = choose|ix: int|
                                    0 <= ix < d.dynamic_symbol_refs.len()
                                        && d.dynamic_symbol_refs[ix].symbol.name == n;
                                assert(b[ix] == n);
                            }
                        },
                        BinaryTypeModel::Static => {},
                    }
                },
                Option::None => {},
            }
        }
        assert((a + b).contains(n) <==> a.contains(n) || b.contains(n)) by {
            if (a + b).contains(n) {
                let ix = choose|ix: int| 0 <= ix < (a + b).len() && (a + b)[ix] == n;
                if ix < a.len() {
                    assert(a[ix] == n);
                } else {
                    assert(b[ix - a.len()] == n);
                }
            }
            if a.contains(n) {
                let ix = choose|ix: int| 0 <= ix < a.len() && a[ix] == n;
                assert((a + b)[ix] == n);
            }
            if b.contains(n) {
                let ix = choose|ix: int| 0 <= ix < b.len() && b[ix] == n;
                assert((a + b)[a.len() + ix] == n);
            }
        }
        assert forall|j: int|
            0 <= j < e && spec_opt_imports_name(#[trigger] m[j].1, n) implies
            spec_entries_import_names(m, e).contains(n) by {
            if j < e - 1 {
                assert(a.contains(n));
                let ix = choose|ix: int| 0 <= ix < a.len() && a[ix] == n;
                assert((a + b)[ix] == n);
            }
        }
    }
}

/// Appends the imported names of one summary to a list of names.
#[verifier::loop_isolation(false)]
fn append_import_names(needed: &mut Vec<String>, image: &ElfSummary)
    ensures
        final(needed)@.map_values(|s: String| s@) == old(needed)@.map_values(|s: String| s@)
            + spec_import_names(image@),
{
    let dyn_data = match &image.binary_type {
        BinaryType::Static => {
            proof {
                assert(needed@.map_values(|s: String| s@) =~= needed@.map_values(|s: String| s@)
                    + spec_import_names(image@));
            }
            return ;
        },
        BinaryType::Dynamic(d) => d,
    };
    let ghost base = needed@.map_values(|s: String| s@);
    let ghost names = spec_import_names(image@);
    let mut i: usize = 0;
    while i < dyn_data.dynamic_symbol_refs.len()
        invariant
            i <= dyn_data.dynamic_symbol_refs@.len(),
            needed@.map_values(|s: String| s@) == base + names.subrange(0, i as int),
        decreases dyn_data.dynamic_symbol_refs@.len() - i,
    {
        let ghost before = needed@.map_values(|s: String| s@);
        needed.push(dyn_data.dynamic_symbol_refs[i].symbol.name.clone());
        proof {
            assert(names[i as int] == dyn_data.dynamic_symbol_refs@[i as int]@.symbol.name);
            assert(needed@.map_values(|s: String| s@) =~= before.push(names[i as int]));
            assert(before.push(names[i as int]) =~= base + names.subrange(0, i + 1));
        }
        i = i + 1;
    }
    proof {
        assert(names.subrange(0, names.len() as int) =~= names);
    }
}

/// Assembles a link graph from a decoded root and its resolved dependency
/// map, linking the imports of the root and of every resolved dependency
/// against the exports of the resolved dependencies. The provider map
/// holds a key exactly when the root or a resolved dependency imports its
/// name and some resolved dependency exports it; each entry carries the
/// filename of the last such dependency in the map's name order — the
/// lexicographically last provider, the documented tie-break.
#[verifier::loop_isolation(false)]
#[verifier::rlimit(100)]
pub fn link_graph(root: ElfSummary, dependencies: DependencyMap) -> (g: LinkGraph)
    requires
        dependencies.wf(),
    ensures
        g.root == root,
        g.dependencies == dependencies,
        g.dependencies.wf(),
        g.provider_of.wf(),
        forall|k: VersionedSymbolModel|
            #[trigger] g.provider_of.contains_key(k) <==> spec_graph_imports(
                root@,
                dependencies@,
                k.name,
            ) && spec_resolved_provides(dependencies@, k),
        forall|e: int|
            0 <= e < g.provider_of@.len() ==> 0 <= spec_last_resolved_exporter(
                dependencies@,
                (#[trigger] g.provider_of@[e]).0,
                dependencies@.len() as int,
            ) && g.provider_of@[e].1 == spec_opt_filename(
                dependencies@[spec_last_resolved_exporter(
                    dependencies@,
                    g.provider_of@[e].0,
                    dependencies@.len() as int,
                )].1,
            ),
        root@.binary_type is Static && dependencies@.len() == 0 ==> g.provider_of@.len() == 0,
{
    let ghost m = dependencies@;
    let mut needed: Vec<String> = Vec::new();
    append_import_names(&mut needed, &root);
    let mut e: usize = 0;
    while e < dependencies.entries.len()
        invariant
            e <= dependencies.entries@.len(),
            needed@.map_values(|s: String| s@) == spec_import_names(root@)
                + spec_entries_import_names(m, e as int),
        decreases dependencies.entries@.len() - e,
    {
        let ghost before = needed@.map_values(|s: String| s@);
        match &dependencies.entries[e].1 {
            Option::None => {
                proof {
                    assert(m[e as int].1 is None);
                    assert(before + spec_opt_import_names(m[e as int].1) =~= before);
                }
            },
            Option::Some(summ) => {
                proof {
                    assert(m[e as int].1 == Option::Some(summ@));
                }
                append_import_names(&mut needed, summ);
                proof {
                    assert(needed@.map_values(|s: String| s@) =~= spec_import_names(root@) + (
                    spec_entries_import_names(m, e as int) + spec_opt_import_names(
                        m[e as int].1,
                    )));
                }
            },
        }
        e = e + 1;
    }
    let ghost needed_v = needed@.map_values(|s: String| s@);
    proof {
        // a name is needed exactly when the root or a resolved image imports it
        assert(spec_entries_import_names(m, m.len() as int) == spec_entries_import_names(
            m,
            dependencies.entries@.len() as int,
        ));
        assert forall|n: Seq<char>|
            #[trigger] needed_v.contains(n) == spec_graph_imports(root@, m, n) by {
            lemma_entries_import_names_contains(m, m.len() as int, n);
            let a = spec_import_names(root@);
            let b = spec_entries_import_names(m, m.len() as int);
            assert((a + b).contains(n) <==> a.contains(n) || b.contains(n)) by {
                if (a + b).contains(n) {
                    let ix = choose|ix: int| 0 <= ix < (a + b).len() && (a + b)[ix] == n;
                    if ix < a.len() {
                        assert(a[ix] == n);
                    } else {
                        assert(b[ix - a.len()] == n);
                    }
                }
                if a.contains(n) {
                    let ix = choose|ix: int| 0 <= ix < a.len() && a[ix] == n;
                    assert((a + b)[ix] == n);
                }
                if b.contains(n) {
                    let ix = choose|ix: int| 0 <= ix < b.len() && b[ix] == n;
                    assert((a + b)[a.len() + ix] == n);
                }
            }
            assert(a.contains(n) <==> spec_imports_name(root@, n)) by {
                match root@.binary_type {
                    BinaryTypeModel::Dynamic(d) => {
                        if a.contains(n) {
                            let ix = choose|ix: int| 0 <= ix < a.len() && a[ix] == n;
                            assert(d.dynamic_symbol_refs[ix].symbol.name == n);
                        }
                        if spec_imports_name(root@, n) {
                            let ix = choose|ix: int|
                                0 <= ix < d.dynamic_symbol_refs.len()
                                    && d.dynamic_symbol_refs[ix].symbol.name == n;
                            assert(a[ix] == n);
                        }
                    },
                    BinaryTypeModel::Static => {},
                }
            }
        }
    }
    let mut provider_of = ProviderMap::new();
    let mut d: usize = dependencies.entries.len();
    while d > 0
        invariant
            d <= dependencies.entries@.len(),
            provider_of.wf(),
            forall|k: VersionedSymbolModel, dd: int|
                d <= dd < m.len() && #[trigger] spec_opt_provides(m[dd].1, k)
                    && needed_v.contains(k.name) ==> provider_of.contains_key(k),
            forall|k: VersionedSymbolModel|
                #[trigger] provider_of.contains_key(k) ==> spec_resolved_provides(m, k)
                    && needed_v.contains(k.name),
            forall|e: int|
                0 <= e < provider_of@.len() ==> 0 <= spec_last_resolved_exporter(
                    m,
                    (#[trigger] provider_of@[e]).0,
                    m.len() as int,
                ) && provider_of@[e].1 == spec_opt_filename(
                    m[spec_last_resolved_exporter(m, provider_of@[e].0, m.len() as int)].1,
                ),
        decreases d,
    {
        d = d - 1;
        let ghost before_map = provider_of;
        match &dependencies.entries[d].1 {
            Option::None => {
                proof {
                    assert(m[d as int].1 is None);
                }
            },
            Option::Some(summ) => {
                proof {
                    assert(m[d as int].1 == Option::Some(summ@));
                }
                let path = summ.filename.clone();
                record_providers(&mut provider_of, &needed, summ, &path);
                proof {
                    assert forall|k: VersionedSymbolModel|
                        #[trigger] provider_of.contains_key(k) implies spec_resolved_provides(
                        m,
                        k,
                    ) && needed_v.contains(k.name) by {
                        if !before_map.contains_key(k) {
                            assert(spec_provides(summ@, k));
                            assert(spec_opt_provides(m[d as int].1, k));
                        }
                    }
                    assert forall|e: int|
                        0 <= e < provider_of@.len() implies 0 <= spec_last_resolved_exporter(
                        m,
                        (#[trigger] provider_of@[e]).0,
                        m.len() as int,
                    ) && provider_of@[e].1 == spec_opt_filename(
                        m[spec_last_resolved_exporter(m, provider_of@[e].0, m.len() as int)].1,
                    ) by {
                        if before_map.contains_key(provider_of@[e].0) {
                            let b = choose|b: int|
                                0 <= b < before_map@.len() && before_map@[b] == provider_of@[e];
                        } else {
                            assert(provider_of@[e].1 == path@);
                            assert(spec_provides(summ@, provider_of@[e].0) && needed_v.contains(
                                provider_of@[e].0.name,
                            ));
                            assert(spec_opt_provides(m[d as int].1, provider_of@[e].0));
                            assert forall|dd: int|
                                (d as int) < dd < m.len() implies !spec_opt_provides(
                                m[dd].1,
                                provider_of@[e].0,
                            ) by {
                                if spec_opt_provides(m[dd].1, provider_of@[e].0) {
                                    assert(before_map.contains_key(provider_of@[e].0));
                                }
                            }
                            lemma_last_resolved_exporter_pins(
                                m,
                                provider_of@[e].0,
                                d as int,
                                m.len() as int,
                            );
                            assert(spec_opt_filename(m[d as int].1) == summ@.filename);
                        }
                    }
                }
            },
        }
    }
    proof {
        assert forall|k: VersionedSymbolModel|
            #[trigger] provider_of.contains_key(k) <==> spec_graph_imports(root@, m, k.name)
            && spec_resolved_provides(m, k) by {
            if spec_graph_imports(root@, m, k.name) && spec_resolved_provides(m, k) {
                let j = choose|j: int| 0 <= j < m.len() && spec_opt_provides(m[j].1, k);
                assert(needed_v.contains(k.name));
                assert(provider_of.contains_key(k));
            }
        }
        if root@.binary_type is Static && m.len() == 0 && provider_of@.len() > 0 {
            assert(provider_of@[0].0 == provider_of@[0].0);
            assert(provider_of.contains_key(provider_of@[0].0));
            assert(spec_resolved_provides(m, provider_of@[0].0));
            assert(false);
        }
    }
    LinkGraph { root, dependencies, provider_of }
}

/// Runs the whole engine over an in-memory filesystem: decodes the root
/// from its bytes, resolves the transitive dependencies over the caller's
/// search path, and links the symbols. A root that fails to decode is
/// fatal and yields the decode fault; a dependency that fails to decode
/// or cannot be found never is — it is recorded as unresolved. A static
/// root yields an empty dependency map and an empty provider map.
pub fn analyze_image(bytes: &Vec<u8>, path: String, search_path: &Vec<String>, files: &FileTable)
    -> (r: Result<LinkGraph, WalkError>)
    ensures
        r is Ok <==> spec_summarize(bytes@, path@) is Ok,
        r matches Err(e) ==> Err::<ElfSummaryModel, WalkError>(e) == spec_summarize(
            bytes@,
            path@,
        ),
        r matches Ok(g) ==> {
            &&& Ok::<ElfSummaryModel, WalkError>(g.root@) == spec_summarize(bytes@, path@)
            &&& g.dependencies.wf()
            &&& g.provider_of.wf()
            &&& (forall|i: int|
                0 <= i < g.dependencies@.len() ==> (#[trigger] g.dependencies@[i]).1
                    == spec_probe(
                    files@,
                    search_path@.map_values(|s: String| s@),
                    g.dependencies@[i].0,
                ))
            &&& (forall|n: Seq<char>|
                spec_needed(g.root@).contains(n) ==> g.dependencies.contains_key(n))
            &&& (forall|i: int, n: Seq<char>|
                0 <= i < g.dependencies@.len() && #[trigger] spec_opt_needs(
                    g.dependencies@[i].1,
                    n,
                ) ==> g.dependencies.contains_key(n))
            &&& (forall|i: int|
                0 <= i < g.dependencies@.len() ==> spec_needed(g.root@).contains(
                    (#[trigger] g.dependencies@[i]).0,
                ) || spec_entry_needs(g.dependencies@, g.dependencies@[i].0))
            &&& (forall|k: VersionedSymbolModel|
                #[trigger] g.provider_of.contains_key(k) <==> spec_graph_imports(
                    g.root@,
                    g.dependencies@,
                    k.name,
                ) && spec_resolved_provides(g.dependencies@, k))
            &&& (forall|e: int|
                0 <= e < g.provider_of@.len() ==> 0 <= spec_last_resolved_exporter(
                    g.dependencies@,
                    (#[trigger] g.provider_of@[e]).0,
                    g.dependencies@.len() as int,
                ) && g.provider_of@[e].1 == spec_opt_filename(
                    g.dependencies@[spec_last_resolved_exporter(
                        g.dependencies@,
                        g.provider_of@[e].0,
                        g.dependencies@.len() as int,
                    )].1,
                ))
            &&& (g.root@.binary_type is Static ==> g.dependencies@.len() == 0
                && g.provider_of@.len() == 0)
        },
{
    let root = match summarize_bytes(bytes, path) {
        Err(e) => {
            return Err(e);
        },
        Ok(s) => s,
    };
    let deps = resolve_dependencies(search_path, &root, files);
    proof {
        if root@.binary_type is Static {
            assert(spec_needed(root@) =~= Seq::<Seq<char>>::empty());
        }
    }
    let g = link_graph(root, deps);
    Ok(g)
}

} // verus!
