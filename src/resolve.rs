//! Turning local and remote definitions into one table of inline definitions.
use vstd::prelude::*;
use crate::model::{
    Definition, DefinitionModel, InlineDefinition, KeyModel, RemoteDefinition, RemoteKey,
    remote_key,
};

verus! {

/// A document of another repository, as fetched and parsed.
#[derive(Debug)]
pub struct RemoteDocument {
    /// The repository the document came from.
    pub repository: String,
    /// The path of the document within the repository.
    pub path: String,
    /// All definitions that the document declares, in order.
    pub definitions: Vec<Definition>,
}

/// Why a resolution failed, over plain sequences.
pub enum ResolveFailure {
    /// A name that occurs twice in one table.
    Duplicate(Seq<char>),
    /// A repository and path for which no document is known.
    Fetch(Seq<char>, Seq<char>),
    /// A key whose document lacks the target definition.
    TargetNotFound(KeyModel),
    /// A key met again on its own lookup path.
    Cyclic(KeyModel),
}

/// Why a set of definitions could not be resolved.
#[derive(Debug)]
pub enum ResolveError {
    /// Two definitions of one table carry the same name.
    DuplicateDefinitionName { name: String },
    /// No document is known at this repository and path.
    RemoteFetchError { repository: String, path: String },
    /// The remote document resolves, but declares no definition of that name.
    RemoteTargetNotFound { repository: String, path: String, target: String },
    /// Resolving this remote definition leads back to itself.
    CyclicRemoteResolution { repository: String, path: String, target: String },
}

impl View for ResolveError {
    type V = ResolveFailure;

    open spec fn view(&self) -> ResolveFailure {
        match self {
            ResolveError::DuplicateDefinitionName { name } => ResolveFailure::Duplicate(name@),
            ResolveError::RemoteFetchError { repository, path } => ResolveFailure::Fetch(
                repository@,
                path@,
            ),
            ResolveError::RemoteTargetNotFound { repository, path, target } =>
                ResolveFailure::TargetNotFound((repository@, path@, target@)),
            ResolveError::CyclicRemoteResolution { repository, path, target } =>
                ResolveFailure::Cyclic((repository@, path@, target@)),
        }
    }
}

/// The models of the entries of a table.
pub open spec fn table_model(v: Seq<InlineDefinition>) -> Seq<DefinitionModel> {
    v.map_values(|d: InlineDefinition| d@)
}

/// The models of a sequence of keys.
pub open spec fn keys_model(v: Seq<RemoteKey>) -> Seq<KeyModel> {
    v.map_values(|k: RemoteKey| k@)
}

/// The first position at or after `i` of an entry named `name`.
pub open spec fn find_name_from(t: Seq<DefinitionModel>, name: Seq<char>, i: int) -> Option<int>
    decreases t.len() - i,
{
    if i < 0 || i >= t.len() {
        None
    } else if t[i].name == name {
        Some(i)
    } else {
        find_name_from(t, name, i + 1)
    }
}

/// The first position of an entry named `name`.
pub open spec fn find_name(t: Seq<DefinitionModel>, name: Seq<char>) -> Option<int> {
    find_name_from(t, name, 0)
}

/// The first position at or after `i` of the document at `repository` and `path`.
pub open spec fn find_document_from(
    store: Seq<RemoteDocument>,
    repository: Seq<char>,
    path: Seq<char>,
    i: int,
) -> Option<int>
    decreases store.len() - i,
{
    if i < 0 || i >= store.len() {
        None
    } else if store[i].repository@ == repository && store[i].path@ == path {
        Some(i)
    } else {
        find_document_from(store, repository, path, i + 1)
    }
}

/// The first position of the document at `repository` and `path`.
pub open spec fn find_document(store: Seq<RemoteDocument>, repository: Seq<char>, path: Seq<char>) -> Option<int> {
    find_document_from(store, repository, path, 0)
}

/// The definition that a remote key stands for, found by resolving the whole
/// remote document with `key` added to the keys on the current path.
/// `depth` bounds the number of nested remote lookups.
pub open spec fn resolve_remote(
    store: Seq<RemoteDocument>,
    visited: Seq<KeyModel>,
    key: KeyModel,
    depth: nat,
) -> Result<DefinitionModel, ResolveFailure>
    decreases depth, 0int,
{
    if visited.contains(key) || depth == 0 {
        Err(ResolveFailure::Cyclic(key))
    } else {
        match find_document(store, key.0, key.1) {
            None => Err(ResolveFailure::Fetch(key.0, key.1)),
            Some(k) => match resolve_table(
                store,
                visited.push(key),
                store[k].definitions@,
                (depth - 1) as nat,
            ) {
                Err(e) => Err(e),
                Ok(t) => match find_name(t, key.2) {
                    None => Err(ResolveFailure::TargetNotFound(key)),
                    Some(j) => Ok(t[j]),
                },
            },
        }
    }
}

/// The table that a sequence of definitions resolves to, entries in
/// declaration order; the first failure from the front decides.
pub open spec fn resolve_table(
    store: Seq<RemoteDocument>,
    visited: Seq<KeyModel>,
    defs: Seq<Definition>,
    depth: nat,
) -> Result<Seq<DefinitionModel>, ResolveFailure>
    decreases depth, defs.len(),
{
    if defs.len() == 0 {
        Ok(seq![])
    } else {
        match resolve_table(store, visited, defs.drop_last(), depth) {
            Err(e) => Err(e),
            Ok(t) => {
                let entry = match defs.last() {
                    Definition::Inline(d) => Ok(d@),
                    Definition::Remote(r) => match resolve_remote(
                        store,
                        visited,
                        remote_key(r),
                        depth,
                    ) {
                        Err(e) => Err(e),
                        Ok(m) => Ok(DefinitionModel { name: r.name@, ..m }),
                    },
                };
                match entry {
                    Err(e) => Err(e),
                    Ok(m) => if find_name(t, m.name) is Some {
                        Err(ResolveFailure::Duplicate(m.name))
                    } else {
                        Ok(t.push(m))
                    },
                }
            },
        }
    }
}

/// The number of definitions that the fetched documents declare.
pub open spec fn definition_count(store: Seq<RemoteDocument>) -> nat
    decreases store.len(),
{
    if store.len() == 0 {
        0
    } else {
        definition_count(store.drop_last()) + store.last().definitions@.len()
    }
}

/// The nesting allowed for remote lookups: one more than the number of
/// definitions in the fetched documents. A chain of distinct keys is never
/// longer (`lemma_distinct_path_fits_bound`), so only a chain that repeats a
/// key can exhaust it.
pub open spec fn depth_bound(store: Seq<RemoteDocument>) -> nat {
    if definition_count(store) + 1 <= usize::MAX {
        definition_count(store) + 1
    } else {
        usize::MAX as nat
    }
}

/// An executable result agrees with a resolution in the model.
pub open spec fn def_outcome(
    r: Result<InlineDefinition, ResolveError>,
    s: Result<DefinitionModel, ResolveFailure>,
) -> bool {
    match r {
        Ok(d) => s == Ok::<DefinitionModel, ResolveFailure>(d@),
        Err(e) => s == Err::<DefinitionModel, ResolveFailure>(e@),
    }
}

/// An executable table result agrees with a resolution in the model.
pub open spec fn table_outcome(
    r: Result<Vec<InlineDefinition>, ResolveError>,
    s: Result<Seq<DefinitionModel>, ResolveFailure>,
) -> bool {
    match r {
        Ok(t) => s == Ok::<Seq<DefinitionModel>, ResolveFailure>(table_model(t@)),
        Err(e) => s == Err::<Seq<DefinitionModel>, ResolveFailure>(e@),
    }
}

proof fn lemma_find_name_from_none(t: Seq<DefinitionModel>, name: Seq<char>, i: int)
    requires
        0 <= i,
    ensures
        find_name_from(t, name, i) is None <==> forall|j: int| i <= j < t.len() ==> t[j].name != name,
        find_name_from(t, name, i) matches Some(j) ==> i <= j < t.len() && t[j].name == name,
    decreases t.len() - i,
{
    if i < t.len() {
        lemma_find_name_from_none(t, name, i + 1);
    }
}

/// A found name lies within the table.
pub proof fn lemma_find_name_bound(t: Seq<DefinitionModel>, name: Seq<char>)
    ensures
        find_name(t, name) matches Some(j) ==> 0 <= j < t.len() && t[j].name == name,
{
    lemma_find_name_from_none(t, name, 0);
}

/// The position of the first definition named `name`.
pub(crate) fn find_definition(table: &Vec<InlineDefinition>, name: &String) -> (r: Option<usize>)
    ensures
        r matches Some(j) ==> find_name(table_model(table@), name@) == Some(j as int),
        r is None ==> find_name(table_model(table@), name@) is None,
{
    let ghost t = table_model(table@);
    let mut i: usize = 0;
    while i < table.len()
        invariant
            i <= table@.len(),
            t == table_model(table@),
            find_name(t, name@) == find_name_from(t, name@, i as int),
        decreases table@.len() - i,
    {
        if table[i].name == *name {
            return Some(i);
        }
        i = i + 1;
    }
    None
}

/// The position of the first document fetched from `repository` at `path`.
fn locate_document(store: &Vec<RemoteDocument>, repository: &String, path: &String) -> (r: Option<usize>)
    ensures
        r matches Some(k) ==> find_document(store@, repository@, path@) == Some(k as int) && k
            < store@.len(),
        r is None ==> find_document(store@, repository@, path@) is None,
{
    let mut i: usize = 0;
    while i < store.len()
        invariant
            i <= store@.len(),
            find_document(store@, repository@, path@) == find_document_from(store@, repository@, path@, i as int),
        decreases store@.len() - i,
    {
        if store[i].repository == *repository && store[i].path == *path {
            return Some(i);
        }
        i = i + 1;
    }
    None
}

/// The position of `key` among `keys`.
fn key_position(keys: &Vec<RemoteKey>, key: &RemoteKey) -> (r: Option<usize>)
    ensures
        r matches Some(j) ==> j < keys@.len() && keys@[j as int]@ == key@,
        r is Some == keys_model(keys@).contains(key@),
{
    let mut i: usize = 0;
    while i < keys.len()
        invariant
            i <= keys@.len(),
            forall|j: int| 0 <= j < i ==> keys@[j]@ != key@,
        decreases keys@.len() - i,
    {
        if keys[i].same(key) {
            assert(keys_model(keys@)[i as int] == key@);
            return Some(i);
        }
        i = i + 1;
    }
    assert(!keys_model(keys@).contains(key@)) by {
        if keys_model(keys@).contains(key@) {
            let j = choose|j: int| 0 <= j < keys_model(keys@).len() && keys_model(keys@)[j] == key@;
            assert(keys@[j]@ == key@);
        }
    }
    None
}

/// The keys on the current path, with one more at the end.
fn extended_path(keys: &Vec<RemoteKey>, key: &RemoteKey) -> (r: Vec<RemoteKey>)
    ensures
        keys_model(r@) == keys_model(keys@).push(key@),
{
    let mut out: Vec<RemoteKey> = Vec::new();
    let mut i: usize = 0;
    while i < keys.len()
        invariant
            i <= keys@.len(),
            out@.len() == i,
            forall|j: int| 0 <= j < i ==> out@[j]@ == keys@[j]@,
        decreases keys@.len() - i,
    {
        out.push(keys[i].duplicate());
        i = i + 1;
    }
    out.push(key.duplicate());
    assert(keys_model(out@) =~= keys_model(keys@).push(key@));
    out
}

fn cyclic_error(key: &RemoteKey) -> (e: ResolveError)
    ensures
        e@ == ResolveFailure::Cyclic(key@),
{
    ResolveError::CyclicRemoteResolution {
        repository: key.repository.clone(),
        path: key.path.clone(),
        target: key.target.clone(),
    }
}

/// A failure of a prefix is the failure of the whole sequence.
proof fn lemma_prefix_failure(
    store: Seq<RemoteDocument>,
    visited: Seq<KeyModel>,
    defs: Seq<Definition>,
    n: int,
    depth: nat,
)
    requires
        0 <= n <= defs.len(),
        resolve_table(store, visited, defs.take(n), depth) is Err,
    ensures
        resolve_table(store, visited, defs, depth) == resolve_table(store, visited, defs.take(n), depth),
    decreases defs.len(),
{
    if n == defs.len() {
        assert(defs.take(n) =~= defs);
    } else {
        assert(defs.drop_last().take(n) =~= defs.take(n));
        lemma_prefix_failure(store, visited, defs.drop_last(), n, depth);
    }
}

/// Resolves the definition that `key` addresses in the fetched documents.
fn resolve_remote_exec(
    store: &Vec<RemoteDocument>,
    visited: &Vec<RemoteKey>,
    key: &RemoteKey,
    depth: usize,
) -> (r: Result<InlineDefinition, ResolveError>)
    ensures
        def_outcome(r, resolve_remote(store@, keys_model(visited@), key@, depth as nat)),
    decreases depth, 0int,
{
    if key_position(visited, key).is_some() || depth == 0 {
        return Err(cyclic_error(key));
    }
    match locate_document(store, &key.repository, &key.path) {
        None => Err(
            ResolveError::RemoteFetchError {
                repository: key.repository.clone(),
                path: key.path.clone(),
            },
        ),
        Some(k) => {
            let inner = extended_path(visited, key);
            match resolve_table_exec(store, &inner, &store[k].definitions, depth - 1) {
                Err(e) => Err(e),
                Ok(mut table) => match find_definition(&table, &key.target) {
                    None => Err(
                        ResolveError::RemoteTargetNotFound {
                            repository: key.repository.clone(),
                            path: key.path.clone(),
                            target: key.target.clone(),
                        },
                    ),
                    Some(j) => {
                        proof {
                            lemma_find_name_from_none(table_model(table@), key@.2, 0);
                        }
                        let found = table.remove(j);
                        Ok(found)
                    },
                },
            }
        },
    }
}

/// Resolves a sequence of definitions into a table, in declaration order.
fn resolve_table_exec(
    store: &Vec<RemoteDocument>,
    visited: &Vec<RemoteKey>,
    defs: &Vec<Definition>,
    depth: usize,
) -> (r: Result<Vec<InlineDefinition>, ResolveError>)
    ensures
        table_outcome(r, resolve_table(store@, keys_model(visited@), defs@, depth as nat)),
    decreases depth, defs@.len(),
{
    let ghost vm = keys_model(visited@);
    let mut out: Vec<InlineDefinition> = Vec::new();
    let mut i: usize = 0;
    assert(defs@.take(0) =~= Seq::<Definition>::empty());
    assert(table_model(out@) =~= Seq::<DefinitionModel>::empty());
    while i < defs.len()
        invariant
            i <= defs@.len(),
            vm == keys_model(visited@),
            resolve_table(store@, vm, defs@.take(i as int), depth as nat) == Ok::<
                Seq<DefinitionModel>,
                ResolveFailure,
            >(table_model(out@)),
        decreases defs@.len() - i,
    {
        let ghost pre = defs@.take(i as int);
        let ghost cur = defs@.take(i + 1);
        assert(cur.drop_last() =~= pre);
        assert(cur.last() == defs@[i as int]);
        let entry = match &defs[i] {
            Definition::Inline(d) => d.renamed(d.name.clone()),
            Definition::Remote(rd) => {
                let key = rd.key();
                match resolve_remote_exec(store, visited, &key, depth) {
                    Err(e) => {
                        proof {
                            lemma_prefix_failure(store@, vm, defs@, i + 1, depth as nat);
                        }
                        return Err(e);
                    },
                    Ok(found) => InlineDefinition {
                        name: rd.name.clone(),
                        kind: found.kind,
                        inputs: found.inputs,
                    },
                }
            },
        };
        if find_definition(&out, &entry.name).is_some() {
            proof {
                lemma_prefix_failure(store@, vm, defs@, i + 1, depth as nat);
            }
            return Err(ResolveError::DuplicateDefinitionName { name: entry.name });
        }
        let ghost before = out@;
        out.push(entry);
        assert(table_model(out@) =~= table_model(before).push(entry@));
        assert(resolve_table(store@, vm, cur, depth as nat) == Ok::<
            Seq<DefinitionModel>,
            ResolveFailure,
        >(table_model(before).push(entry@)));
        i = i + 1;
    }
    assert(defs@.take(i as int) =~= defs@);
    Ok(out)
}

/// A resolved table, with the remote keys that were fetched to build it.
#[derive(Debug)]
pub struct Resolution {
    /// The resolved definitions, in declaration order.
    pub definitions: Vec<InlineDefinition>,
    /// Each remote key that was resolved, once, in order of first use.
    pub fetched: Vec<RemoteKey>,
}

/// Each of `keys` is the key of some remote definition of `defs`.
pub open spec fn only_declared_keys(defs: Seq<Definition>, keys: Seq<KeyModel>) -> bool {
    forall|j: int| 0 <= j < keys.len() ==> #[trigger] key_declared(defs, keys[j])
}

/// Some remote definition of `defs` has this key.
pub open spec fn key_declared(defs: Seq<Definition>, key: KeyModel) -> bool {
    exists|k: int| 0 <= k < defs.len() && #[trigger] is_remote_with_key(defs[k], key)
}

/// Whether a definition is a remote one with the given key.
pub open spec fn is_remote_with_key(d: Definition, key: KeyModel) -> bool {
    d matches Definition::Remote(r) && remote_key(r) == key
}

spec fn declared_at(defs: Seq<Definition>, k: int, key: KeyModel) -> bool {
    0 <= k < defs.len() && is_remote_with_key(defs[k], key)
}

proof fn lemma_declared_keys(defs: Seq<Definition>, keys: Seq<KeyModel>, origin: Seq<int>)
    requires
        origin.len() == keys.len(),
        forall|j: int| 0 <= j < keys.len() ==> declared_at(defs, origin[j], #[trigger] keys[j]),
    ensures
        only_declared_keys(defs, keys),
{
    assert forall|j: int| 0 <= j < keys.len() implies #[trigger] key_declared(defs, keys[j]) by {
        let k = origin[j];
        assert(declared_at(defs, k, keys[j]));
        assert(0 <= k < defs.len() && is_remote_with_key(defs[k], keys[j]));
    }
}

/// The nesting bound for remote lookups over the fetched documents.
fn depth_for(store: &Vec<RemoteDocument>) -> (d: usize)
    ensures
        d as nat == depth_bound(store@),
{
    let mut acc: usize = 1;
    let mut i: usize = 0;
    assert(store@.take(0) =~= Seq::<RemoteDocument>::empty());
    while i < store.len()
        invariant
            i <= store@.len(),
            acc as nat == depth_bound(store@.take(i as int)),
        decreases store@.len() - i,
    {
        assert(store@.take(i + 1).drop_last() =~= store@.take(i as int));
        let n = store[i].definitions.len();
        if acc > usize::MAX - n {
            acc = usize::MAX;
        } else {
            acc = acc + n;
        }
        i = i + 1;
    }
    assert(store@.take(i as int) =~= store@);
    acc
}

/// Resolves the definitions of one document against the fetched documents.
///
/// The table is the one that `resolve_table` describes, with no keys on the
/// path and the depth bound of the store. Each distinct remote key is
/// resolved once: `fetched` lists exactly the keys of the remote
/// definitions, without repetition.
pub fn resolve_definitions(defs: &Vec<Definition>, store: &Vec<RemoteDocument>) -> (r: Result<Resolution, ResolveError>)
    ensures
        match r {
            Ok(res) => resolve_table(store@, Seq::empty(), defs@, depth_bound(store@)) == Ok::<
                Seq<DefinitionModel>,
                ResolveFailure,
            >(table_model(res.definitions@)),
            Err(e) => resolve_table(store@, Seq::empty(), defs@, depth_bound(store@)) == Err::<
                Seq<DefinitionModel>,
                ResolveFailure,
            >(e@),
        },
        r matches Ok(res) ==> keys_model(res.fetched@).no_duplicates(),
        r matches Ok(res) ==> (forall|k: int|
            #![trigger defs@[k]]
            0 <= k < defs@.len() && defs@[k] is Remote ==> keys_model(res.fetched@).contains(
                remote_key(defs@[k]->Remote_0),
            )),
        r matches Ok(res) ==> only_declared_keys(defs@, keys_model(res.fetched@)),
{
    let depth = depth_for(store);
    let empty: Vec<RemoteKey> = Vec::new();
    let ghost none: Seq<KeyModel> = Seq::empty();
    assert(keys_model(empty@) =~= none);
    let mut fetched: Vec<RemoteKey> = Vec::new();
    let ghost mut origin: Seq<int> = Seq::empty();
    let mut found: Vec<InlineDefinition> = Vec::new();
    let mut out: Vec<InlineDefinition> = Vec::new();
    let mut i: usize = 0;
    assert(defs@.take(0) =~= Seq::<Definition>::empty());
    assert(table_model(out@) =~= Seq::<DefinitionModel>::empty());
    while i < defs.len()
        invariant
            i <= defs@.len(),
            depth as nat == depth_bound(store@),
            keys_model(empty@) == none,
            none == Seq::<KeyModel>::empty(),
            resolve_table(store@, none, defs@.take(i as int), depth as nat) == Ok::<
                Seq<DefinitionModel>,
                ResolveFailure,
            >(table_model(out@)),
            found@.len() == fetched@.len(),
            forall|j: int|
                0 <= j < fetched@.len() ==> resolve_remote(store@, none, #[trigger] fetched@[j]@, depth as nat)
                    == Ok::<DefinitionModel, ResolveFailure>(found@[j]@),
            keys_model(fetched@).no_duplicates(),
            forall|k: int|
                #![trigger defs@[k]]
                0 <= k < i && defs@[k] is Remote ==> keys_model(fetched@).contains(
                    remote_key(defs@[k]->Remote_0),
                ),
            origin.len() == fetched@.len(),
            forall|j: int|
                0 <= j < fetched@.len() ==> declared_at(defs@, origin[j], #[trigger] keys_model(fetched@)[j]),
        decreases defs@.len() - i,
    {
        let ghost pre = defs@.take(i as int);
        let ghost cur = defs@.take(i + 1);
        assert(cur.drop_last() =~= pre);
        assert(cur.last() == defs@[i as int]);
        let entry = match &defs[i] {
            Definition::Inline(d) => d.renamed(d.name.clone()),
            Definition::Remote(rd) => {
                let key = rd.key();
                assert(is_remote_with_key(defs@[i as int], key@));
                match key_position(&fetched, &key) {
                    Some(j) => {
                        assert(keys_model(fetched@)[j as int] == key@);
                        found[j].renamed(rd.name.clone())
                    },
                    None => match resolve_remote_exec(store, &empty, &key, depth) {
                        Err(e) => {
                            proof {
                                lemma_prefix_failure(store@, none, defs@, i + 1, depth as nat);
                            }
                            return Err(e);
                        },
                        Ok(f) => {
                            let ghost old_keys = keys_model(fetched@);
                            let ghost old_fetched = fetched@;
                            let entry = f.renamed(rd.name.clone());
                            fetched.push(key);
                            found.push(f);
                            assert(keys_model(fetched@) =~= old_keys.push(key@));
                            assert(keys_model(fetched@).no_duplicates()) by {
                                assert forall|a: int, b: int|
                                    0 <= a < keys_model(fetched@).len() && 0 <= b < keys_model(fetched@).len() && a
                                        != b implies keys_model(fetched@)[a] != keys_model(fetched@)[b] by {
                                    if a < old_keys.len() && b < old_keys.len() {
                                    } else if a < old_keys.len() {
                                        assert(old_keys.contains(old_keys[a]));
                                    } else {
                                        assert(old_keys.contains(old_keys[b]));
                                    }
                                }
                            }
                            assert forall|k: int|
                                #![trigger defs@[k]]
                                0 <= k < i && defs@[k] is Remote implies keys_model(fetched@).contains(
                                    remote_key(defs@[k]->Remote_0),
                                ) by {
                                let w = choose|w: int| 0 <= w < old_keys.len() && old_keys[w] == remote_key(defs@[k]->Remote_0);
                                assert(keys_model(fetched@)[w] == old_keys[w]);
                            }
                            assert(keys_model(fetched@)[fetched@.len() - 1] == key@);
                            proof {
                                origin = origin.push(i as int);
                            }
                            assert forall|j: int|
                                0 <= j < fetched@.len() implies declared_at(
                                    defs@,
                                    origin[j],
                                    #[trigger] keys_model(fetched@)[j],
                                ) by {
                                if j < old_fetched.len() {
                                    assert(keys_model(fetched@)[j] == old_keys[j]);
                                }
                            }
                            entry
                        },
                    },
                }
            },
        };
        if find_definition(&out, &entry.name).is_some() {
            proof {
                lemma_prefix_failure(store@, none, defs@, i + 1, depth as nat);
            }
            return Err(ResolveError::DuplicateDefinitionName { name: entry.name });
        }
        let ghost before = out@;
        out.push(entry);
        assert(table_model(out@) =~= table_model(before).push(entry@));
        assert(resolve_table(store@, none, cur, depth as nat) == Ok::<
            Seq<DefinitionModel>,
            ResolveFailure,
        >(table_model(before).push(entry@)));
        i = i + 1;
    }
    assert(defs@.take(i as int) =~= defs@);
    proof {
        lemma_declared_keys(defs@, keys_model(fetched@), origin);
    }
    Ok(Resolution { definitions: out, fetched })
}

/// The models of a sequence of inline definitions.
pub open spec fn inline_models(defs: Seq<Definition>) -> Seq<DefinitionModel> {
    defs.map_values(|d: Definition| d->Inline_0@)
}

/// Definitions that are all inline, with distinct names, resolve to
/// themselves: same names, kinds and pins, in declaration order.
pub proof fn lemma_inline_only_resolves_to_itself(
    store: Seq<RemoteDocument>,
    visited: Seq<KeyModel>,
    defs: Seq<Definition>,
    depth: nat,
)
    requires
        forall|k: int| 0 <= k < defs.len() ==> #[trigger] defs[k] is Inline,
        forall|a: int, b: int|
            0 <= a < b < defs.len() ==> (#[trigger] defs[a])->Inline_0.name@ != (
            #[trigger] defs[b])->Inline_0.name@,
    ensures
        resolve_table(store, visited, defs, depth) == Ok::<Seq<DefinitionModel>, ResolveFailure>(
            inline_models(defs),
        ),
    decreases defs.len(),
{
    if defs.len() > 0 {
        let p = defs.drop_last();
        assert forall|a: int, b: int| 0 <= a < b < p.len() implies (#[trigger] p[a])->Inline_0.name@
            != (#[trigger] p[b])->Inline_0.name@ by {
            assert(p[a] == defs[a] && p[b] == defs[b]);
        }
        lemma_inline_only_resolves_to_itself(store, visited, p, depth);
        let t = inline_models(p);
        let last = defs.last();
        assert(defs[defs.len() - 1] is Inline);
        lemma_find_name_from_none(t, last->Inline_0@.name, 0);
        assert forall|j: int| 0 <= j < t.len() implies t[j].name != last->Inline_0@.name by {
            assert(defs[j] is Inline);
            assert(p[j] == defs[j]);
        }
        assert(inline_models(defs) =~= t.push(last->Inline_0@));
    } else {
        assert(inline_models(defs) =~= Seq::<DefinitionModel>::empty());
    }
}

/// A key that is already on the current path of lookups resolves to a
/// cycle failure at once, whatever the documents hold.
pub proof fn lemma_revisited_key_is_cyclic(
    store: Seq<RemoteDocument>,
    visited: Seq<KeyModel>,
    key: KeyModel,
    depth: nat,
)
    requires
        visited.contains(key),
    ensures
        resolve_remote(store, visited, key, depth) == Err::<DefinitionModel, ResolveFailure>(
            ResolveFailure::Cyclic(key),
        ),
{
}

/// A remote definition without a target is looked up under its own name.
pub proof fn lemma_target_defaults_to_name(r: RemoteDefinition)
    requires
        r.target is None,
    ensures
        remote_key(r).2 == r.name@,
{
}

/// The keys of the remote definitions among `defs`.
pub open spec fn remote_keys(defs: Seq<Definition>) -> Set<KeyModel>
    decreases defs.len(),
{
    if defs.len() == 0 {
        Set::empty()
    } else {
        let rest = remote_keys(defs.drop_last());
        match defs.last() {
            Definition::Remote(r) => rest.insert(remote_key(r)),
            Definition::Inline(_) => rest,
        }
    }
}

/// The keys of the remote definitions of all fetched documents: every key
/// that a nested lookup can put on the path.
pub open spec fn store_keys(store: Seq<RemoteDocument>) -> Set<KeyModel>
    decreases store.len(),
{
    if store.len() == 0 {
        Set::empty()
    } else {
        store_keys(store.drop_last()).union(remote_keys(store.last().definitions@))
    }
}

proof fn lemma_remote_keys_len(defs: Seq<Definition>)
    ensures
        remote_keys(defs).finite(),
        remote_keys(defs).len() <= defs.len(),
    decreases defs.len(),
{
    broadcast use vstd::set::group_set_axioms;

    if defs.len() > 0 {
        lemma_remote_keys_len(defs.drop_last());
    }
}

proof fn lemma_remote_keys_contain(defs: Seq<Definition>, j: int)
    requires
        0 <= j < defs.len(),
        defs[j] is Remote,
    ensures
        remote_keys(defs).contains(remote_key(defs[j]->Remote_0)),
    decreases defs.len(),
{
    if j < defs.len() - 1 {
        assert(defs.drop_last()[j] == defs[j]);
        lemma_remote_keys_contain(defs.drop_last(), j);
    }
}

proof fn lemma_store_keys_len(store: Seq<RemoteDocument>)
    ensures
        store_keys(store).finite(),
        store_keys(store).len() <= definition_count(store),
    decreases store.len(),
{
    broadcast use vstd::set::group_set_axioms;

    if store.len() > 0 {
        lemma_store_keys_len(store.drop_last());
        lemma_remote_keys_len(store.last().definitions@);
        vstd::set_lib::lemma_len_union(
            store_keys(store.drop_last()),
            remote_keys(store.last().definitions@),
        );
    }
}

/// Every remote definition of a fetched document contributes its key to
/// `store_keys`: each key on a lookup path after the first is one of them.
pub proof fn lemma_document_key_in_store(store: Seq<RemoteDocument>, k: int, j: int)
    requires
        0 <= k < store.len(),
        0 <= j < store[k].definitions@.len(),
        store[k].definitions@[j] is Remote,
    ensures
        store_keys(store).contains(remote_key(store[k].definitions@[j]->Remote_0)),
    decreases store.len(),
{
    if k == store.len() - 1 {
        lemma_remote_keys_contain(store[k].definitions@, j);
    } else {
        assert(store.drop_last()[k] == store[k]);
        lemma_document_key_in_store(store.drop_last(), k, j);
    }
}

/// A lookup path of distinct keys, all taken from the fetched documents, is
/// no longer than the number of their definitions. The depth bound allows
/// one nested lookup more than that, so a chain of lookups can exhaust it
/// only by meeting a key again.
pub proof fn lemma_distinct_path_fits_bound(store: Seq<RemoteDocument>, path: Seq<KeyModel>)
    requires
        path.no_duplicates(),
        forall|i: int| 0 <= i < path.len() ==> store_keys(store).contains(#[trigger] path[i]),
    ensures
        path.len() <= definition_count(store),
        path.len() < depth_bound(store) || definition_count(store) >= usize::MAX,
{
    lemma_store_keys_len(store);
    path.unique_seq_to_set();
    assert(path.to_set().subset_of(store_keys(store))) by {
        assert forall|x: KeyModel| path.to_set().contains(x) implies store_keys(store).contains(x) by {
            let i = choose|i: int| 0 <= i < path.len() && path[i] == x;
        }
    }
    vstd::set_lib::lemma_len_subset(path.to_set(), store_keys(store));
}

/// Each key of `chain` but the last addresses a fetched document whose
/// first definition is remote, with the next key of the chain.
pub open spec fn is_lookup_chain(store: Seq<RemoteDocument>, chain: Seq<KeyModel>) -> bool {
    forall|i: int|
        #![trigger chain[i]]
        0 <= i < chain.len() - 1 ==> {
            let k = chain[i];
            &&& find_document(store, k.0, k.1) is Some
            &&& store[find_document(store, k.0, k.1)->Some_0].definitions@.len() > 0
            &&& store[find_document(store, k.0, k.1)->Some_0].definitions@[0] is Remote
            &&& remote_key(store[find_document(store, k.0, k.1)->Some_0].definitions@[0]->Remote_0)
                == chain[i + 1]
        }
}

proof fn lemma_chain_from(
    store: Seq<RemoteDocument>,
    chain: Seq<KeyModel>,
    i: int,
    depth: nat,
)
    requires
        2 <= chain.len(),
        chain.last() == chain[0],
        is_lookup_chain(store, chain),
        0 <= i < chain.len(),
    ensures
        resolve_remote(store, chain.take(i), chain[i], depth) matches Err(ResolveFailure::Cyclic(_)),
    decreases chain.len() - i,
{
    let path = chain.take(i);
    if path.contains(chain[i]) || depth == 0 {
    } else if i == chain.len() - 1 {
        assert(path[0] == chain[0]);
        assert(path.contains(chain[i]));
    } else {
        let k = chain[i];
        assert(find_document(store, k.0, k.1) is Some);
        let d = find_document(store, k.0, k.1)->Some_0;
        lemma_find_document_bound(store, k.0, k.1);
        let defs = store[d].definitions@;
        assert(chain.take(i + 1) =~= path.push(k));
        lemma_chain_from(store, chain, i + 1, (depth - 1) as nat);
        assert(defs.take(1).drop_last() =~= Seq::<Definition>::empty());
        assert(defs.take(1).last() == defs[0]);
        assert(remote_key(defs[0]->Remote_0) == chain[i + 1]);
        assert(resolve_table(store, path.push(k), defs.take(1).drop_last(), (depth - 1) as nat) is Ok);
        let sub = resolve_remote(store, path.push(k), chain[i + 1], (depth - 1) as nat);
        assert(sub matches Err(ResolveFailure::Cyclic(_)));
        assert(resolve_table(store, path.push(k), defs.take(1), (depth - 1) as nat) == Err::<
            Seq<DefinitionModel>,
            ResolveFailure,
        >(sub->Err_0));
        lemma_prefix_failure(store, path.push(k), defs, 1, (depth - 1) as nat);
    }
}

proof fn lemma_find_document_bound(store: Seq<RemoteDocument>, repository: Seq<char>, path: Seq<char>)
    ensures
        find_document(store, repository, path) matches Some(k) ==> 0 <= k < store.len(),
{
    lemma_find_document_from_bound(store, repository, path, 0);
}

proof fn lemma_find_document_from_bound(
    store: Seq<RemoteDocument>,
    repository: Seq<char>,
    path: Seq<char>,
    i: int,
)
    ensures
        find_document_from(store, repository, path, i) matches Some(k) ==> i <= k < store.len(),
    decreases store.len() - i,
{
    if 0 <= i < store.len() {
        lemma_find_document_from_bound(store, repository, path, i + 1);
    }
}

/// A chain of remote lookups that leads back to its first key fails as a
/// cycle, whatever the nesting bound: resolving the first key from an empty
/// path gives a cycle failure.
pub proof fn lemma_chain_back_to_start_is_cyclic(
    store: Seq<RemoteDocument>,
    chain: Seq<KeyModel>,
    depth: nat,
)
    requires
        2 <= chain.len(),
        chain.last() == chain[0],
        is_lookup_chain(store, chain),
    ensures
        resolve_remote(store, Seq::empty(), chain[0], depth) matches Err(ResolveFailure::Cyclic(_)),
{
    assert(chain.take(0) =~= Seq::<KeyModel>::empty());
    lemma_chain_from(store, chain, 0, depth);
}

} // verus!
