use vstd::prelude::*;

use crate::error::PipelineError;
use crate::text::{contains_char, extract_refs, references, strings_view};

verus! {

/// Layers nested deeper than this are not followed.
pub const MAX_DEPTH: usize = 32;

/// Information about a resolved USD layer.
#[derive(Debug)]
pub struct LayerInfo {
    /// Nesting depth (0 = root).
    pub depth: usize,
    /// Resolved file path string.
    pub path: String,
}

impl View for LayerInfo {
    type V = (nat, Seq<char>);

    open spec fn view(&self) -> (nat, Seq<char>) {
        (self.depth as nat, self.path@)
    }
}

/// The parent directory of a path, as `std::path::Path::parent` gives it.
pub uninterp spec fn path_parent_of(path: Seq<char>) -> Option<Seq<char>>;

/// `rel` joined onto `base`, as `std::path::Path::join` gives it, when the
/// result is valid UTF-8.
pub uninterp spec fn path_join_of(base: Seq<char>, rel: Seq<char>) -> Option<Seq<char>>;

/// The view of an optional string.
pub open spec fn opt_view(s: Option<String>) -> Option<Seq<char>> {
    match s {
        Some(t) => Some(t@),
        None => None,
    }
}

/// The text a file system operation gave, if it succeeded.
pub open spec fn answer_view(a: Result<String, std::io::Error>) -> Option<Seq<char>> {
    match a {
        Ok(t) => Some(t@),
        Err(_) => None,
    }
}

/// Calls `std::path::Path::parent` on `path` and converts the parent back to
/// a string. Trusted: the result is named `path_parent_of(path)`, a function
/// of the path alone (for the platform this is built for).
#[verifier::external_body]
fn path_parent(path: &str) -> (r: Option<String>)
    ensures
        opt_view(r) == path_parent_of(path@),
{
    match std::path::Path::new(path).parent() {
        Some(p) => p.to_str().map(|s| s.to_owned()),
        None => None,
    }
}

/// What `Path::join` is documented to do on Unix, where it says: a `rel` that
/// is absolute (starts with `/`) replaces the base; a relative one extends a
/// base that is not empty and does not already end with `/`, after a `/`.
pub open spec fn join_documented(base: Seq<char>, rel: Seq<char>, joined: Seq<char>) -> bool {
    &&& (rel.len() > 0 && rel[0] == '/') ==> joined == rel
    &&& (!(rel.len() > 0 && rel[0] == '/') && base.len() > 0 && base.last() != '/') ==> joined
        == base + seq!['/'] + rel
}

/// Calls `std::path::Path::join` and converts the joined path back to a
/// string. Trusted: the result is named `path_join_of(base, rel)`, a function
/// of the two paths alone (for the platform this is built for); the joined
/// path of two string paths is valid UTF-8, so the conversion succeeds; and the
/// result is what the documentation of `Path::join` and `PathBuf::push` says
/// (see `join_documented`). Joining onto an empty base, or onto one that ends
/// with `/`, is left unsaid.
#[verifier::external_body]
fn path_join(base: &str, rel: &str) -> (r: Option<String>)
    ensures
        opt_view(r) == path_join_of(base@, rel@),
        r is Some,
        r matches Some(j) ==> join_documented(base@, rel@, j@),
{
    std::path::Path::new(base).join(rel).to_str().map(|s| s.to_owned())
}

/// Extracts the `@...@` asset references of a USD text.
pub fn extract_at_refs(content: &str) -> (refs: Vec<String>)
    ensures
        strings_view(refs@) == references(content@),
{
    extract_refs(content)
}

// ---------------------------------------------------------------------------
// The model of a resolution in progress
// ---------------------------------------------------------------------------

/// A reference still to be followed: the file it was found in, the directory
/// it is relative to, its text, and the depth of the layer it leads to.
pub struct PendingModel {
    pub file: Seq<char>,
    pub base: Seq<char>,
    pub reference: Seq<char>,
    pub depth: nat,
}

/// What the resolver waits for.
pub enum StageModel {
    /// The canonical form of `path`, a candidate layer at `depth`.
    Canonicalize { path: Seq<char>, depth: nat },
    /// The text of `path`, the layer last recorded, at `depth`.
    Read { path: Seq<char>, depth: nat },
    /// Nothing: the resolution is over.
    Done,
}

/// Why a resolution failed.
pub enum FailureModel {
    /// A reference holding a NUL character: the file it was in, and a message.
    InvalidRef { file: Seq<char>, detail: Seq<char> },
    /// A referenced layer that exists could not be read.
    Io,
}

/// A resolution in progress: the layers recorded so far (depth and canonical
/// path, in the order met), the references still to follow (the next one
/// last), what it waits for, and what ended it in failure, if anything.
#[verifier::ext_equal]
pub struct ResolverModel {
    pub layers: Seq<(nat, Seq<char>)>,
    pub pending: Seq<PendingModel>,
    pub stage: StageModel,
    pub failure: Option<FailureModel>,
}

/// The canonical paths of the recorded layers.
pub open spec fn layer_paths(layers: Seq<(nat, Seq<char>)>) -> Seq<Seq<char>> {
    layers.map_values(|l: (nat, Seq<char>)| l.1)
}

/// The message for a reference holding a NUL character.
pub open spec fn null_detail(reference: Seq<char>) -> Seq<char> {
    "null byte in reference: "@ + reference
}

/// Follows the pending references, last first, until one needs the file
/// system: a reference holding a NUL character ends the resolution with a
/// failure; one whose joined path is not valid UTF-8, or that would lead deeper
/// than `MAX_DEPTH`, is skipped; otherwise its path must be canonicalized.
/// With nothing left to follow, the resolution is over.
pub open spec fn settle(layers: Seq<(nat, Seq<char>)>, pending: Seq<PendingModel>) -> ResolverModel
    decreases pending.len(),
{
    if pending.len() == 0 {
        ResolverModel { layers, pending, stage: StageModel::Done, failure: None }
    } else {
        let r = pending.last();
        let rest = pending.drop_last();
        if r.reference.contains('\0') {
            ResolverModel {
                layers,
                pending: rest,
                stage: StageModel::Done,
                failure: Some(FailureModel::InvalidRef { file: r.file, detail: null_detail(r.reference) }),
            }
        } else {
            match path_join_of(r.base, r.reference) {
                None => settle(layers, rest),
                Some(p) => if r.depth > MAX_DEPTH {
                    settle(layers, rest)
                } else {
                    ResolverModel {
                        layers,
                        pending: rest,
                        stage: StageModel::Canonicalize { path: p, depth: r.depth },
                        failure: None,
                    }
                },
            }
        }
    }
}

/// The state at the start: the root file must be canonicalized, at depth 0.
pub open spec fn start_model(root: Seq<char>) -> ResolverModel {
    ResolverModel {
        layers: Seq::empty(),
        pending: Seq::empty(),
        stage: StageModel::Canonicalize { path: root, depth: 0 },
        failure: None,
    }
}

/// On the canonical form of a candidate layer (`None`: the path could not be
/// canonicalized). A referenced file that cannot be canonicalized does not
/// exist and is skipped; the root file then stands for itself. A canonical
/// path already recorded is skipped; otherwise it is recorded as a layer and
/// its text is read.
pub open spec fn after_canonical(
    m: ResolverModel,
    path: Seq<char>,
    depth: nat,
    answer: Option<Seq<char>>,
) -> ResolverModel {
    if answer is None && depth > 0 {
        settle(m.layers, m.pending)
    } else {
        let canonical = match answer {
            Some(c) => c,
            None => path,
        };
        if layer_paths(m.layers).contains(canonical) {
            settle(m.layers, m.pending)
        } else {
            ResolverModel {
                layers: m.layers.push((depth, canonical)),
                pending: m.pending,
                stage: StageModel::Read { path, depth },
                failure: None,
            }
        }
    }
}

/// The directory the references of `path` are relative to: its parent, or
/// `.` when it has none.
pub open spec fn base_of(path: Seq<char>) -> Seq<char> {
    match path_parent_of(path) {
        Some(b) => b,
        None => "."@,
    }
}

/// The references of a layer as pending entries, the first reference last
/// (so that it is followed first).
pub open spec fn child_refs(file: Seq<char>, base: Seq<char>, refs: Seq<Seq<char>>, depth: nat) -> Seq<
    PendingModel,
> {
    Seq::new(
        refs.len(),
        |i: int| PendingModel { file, base, reference: refs[refs.len() - 1 - i], depth },
    )
}

/// On the text of the layer just recorded (`None`: it could not be read).
/// A referenced layer that exists but cannot be read ends the resolution with
/// an I/O failure; the root then simply has no references. Otherwise the
/// references are followed, one level deeper, before anything pending from
/// earlier layers.
pub open spec fn after_content(
    m: ResolverModel,
    path: Seq<char>,
    depth: nat,
    answer: Option<Seq<char>>,
) -> ResolverModel {
    match answer {
        None => if depth > 0 {
            ResolverModel { layers: m.layers, pending: m.pending, stage: StageModel::Done, failure: Some(FailureModel::Io) }
        } else {
            settle(m.layers, m.pending)
        },
        Some(c) => settle(
            m.layers,
            m.pending + child_refs(path, base_of(path), references(c), depth + 1),
        ),
    }
}

/// The references a step has to follow from: those pending, and, after the
/// text of a layer, its own references on top.
pub open spec fn queued(m: ResolverModel, answer: Option<Seq<char>>) -> Seq<PendingModel> {
    match m.stage {
        StageModel::Read { path, depth } => match answer {
            Some(c) => m.pending + child_refs(path, base_of(path), references(c), depth + 1),
            None => m.pending,
        },
        _ => m.pending,
    }
}

/// When the resolution `m` waits to canonicalize a path, taken from the
/// references `q` (the next one last), that path is where joining puts the
/// reference it took: an absolute reference as written, a relative one under
/// the directory of the file it was found in.
pub open spec fn follows_as_joined(q: Seq<PendingModel>, m: ResolverModel) -> bool {
    m.stage matches StageModel::Canonicalize { path, .. } ==> {
        &&& m.pending.len() < q.len()
        &&& join_documented(q[m.pending.len() as int].base, q[m.pending.len() as int].reference, path)
    }
}

/// One step of the resolution, on the answer to what it waited for.
pub open spec fn advance_model(m: ResolverModel, answer: Option<Seq<char>>) -> ResolverModel {
    match m.stage {
        StageModel::Canonicalize { path, depth } => after_canonical(m, path, depth, answer),
        StageModel::Read { path, depth } => after_content(m, path, depth, answer),
        StageModel::Done => m,
    }
}

/// What a resolver asks for next.
#[derive(Debug)]
pub enum ResolveAction {
    /// Canonicalize this path (`std::fs::canonicalize`) and answer with the
    /// result.
    Canonicalize(String),
    /// Read this file as text (`std::fs::read_to_string`) and answer with the
    /// result.
    Read(String),
    /// Nothing: call `finish`.
    Done,
}

/// `a` asks for what `m` waits for.
pub open spec fn action_matches(a: ResolveAction, m: ResolverModel) -> bool {
    match m.stage {
        StageModel::Canonicalize { path, .. } => a matches ResolveAction::Canonicalize(p) && p@ == path,
        StageModel::Read { path, .. } => a matches ResolveAction::Read(p) && p@ == path,
        StageModel::Done => a is Done,
    }
}

// ---------------------------------------------------------------------------
// The resolver
// ---------------------------------------------------------------------------

/// A reference still to be followed.
struct PendingRef {
    file: String,
    base: String,
    reference: String,
    depth: usize,
}

impl View for PendingRef {
    type V = PendingModel;

    closed spec fn view(&self) -> PendingModel {
        PendingModel { file: self.file@, base: self.base@, reference: self.reference@, depth: self.depth as nat }
    }
}

enum Failure {
    InvalidRef(String, String),
    Io(std::io::Error),
}

enum Stage {
    Canonicalize(String, usize),
    Read(String, usize),
    Done,
}

/// The state of a resolution, without its invariant.
struct Parts {
    layers: Vec<LayerInfo>,
    pending: Vec<PendingRef>,
    stage: Stage,
    failure: Option<Failure>,
}

impl Parts {
    closed spec fn model(&self) -> ResolverModel {
        ResolverModel {
            layers: self.layers@.map_values(|l: LayerInfo| l@),
            pending: self.pending@.map_values(|r: PendingRef| r@),
            stage: match self.stage {
                Stage::Canonicalize(p, d) => StageModel::Canonicalize { path: p@, depth: d as nat },
                Stage::Read(p, d) => StageModel::Read { path: p@, depth: d as nat },
                Stage::Done => StageModel::Done,
            },
            failure: match self.failure {
                Some(Failure::InvalidRef(f, d)) => Some(FailureModel::InvalidRef { file: f@, detail: d@ }),
                Some(Failure::Io(_)) => Some(FailureModel::Io),
                None => None,
            },
        }
    }

    /// Follows pending references until one needs the file system.
    fn settle(&mut self)
        ensures
            final(self).model() == settle(old(self).model().layers, old(self).model().pending),
            follows_as_joined(old(self).model().pending, final(self).model()),
    {
        let ghost layers0 = self.model().layers;
        let ghost pending0 = self.model().pending;
        loop
            invariant
                layers0 == old(self).model().layers,
                pending0 == old(self).model().pending,
                self.model().layers == layers0,
                settle(layers0, self.model().pending) == settle(layers0, pending0),
                self.model().pending.len() <= pending0.len(),
                self.model().pending == pending0.take(self.model().pending.len() as int),
            decreases self.pending.len(),
        {
            let ghost before = self.model().pending;
            match self.pending.pop() {
                None => {
                    self.stage = Stage::Done;
                    self.failure = None;
                    proof {
                        assert(before.len() == 0);
                        assert(self.model().pending =~= Seq::<PendingModel>::empty());
                        assert(self.model() =~= settle(layers0, before));
                    }
                    return;
                },
                Some(r) => {
                    proof {
                        assert(self.model().pending =~= before.drop_last());
                        assert(r@ == before.last());
                        assert(before.drop_last() =~= pending0.take(before.len() - 1));
                        assert(before.last() == pending0[before.len() - 1]);
                    }
                    if contains_char(r.reference.as_str(), '\0') {
                        let mut detail = "null byte in reference: ".to_owned();
                        detail.push_str(r.reference.as_str());
                        self.failure = Some(Failure::InvalidRef(r.file, detail));
                        self.stage = Stage::Done;
                        proof {
                            assert(before.last().reference.contains('\0'));
                            assert(self.model() =~= settle(layers0, before));
                        }
                        return;
                    }
                    match path_join(r.base.as_str(), r.reference.as_str()) {
                        None => {},
                        Some(p) => {
                            if r.depth <= MAX_DEPTH {
                                self.stage = Stage::Canonicalize(p, r.depth);
                                self.failure = None;
                                proof {
                                    assert(!before.last().reference.contains('\0'));
                                    assert(path_join_of(before.last().base, before.last().reference) == Some(p@));
                                    assert(self.model() =~= settle(layers0, before));
                                    assert(self.model().pending.len() == before.len() - 1);
                                }
                                return;
                            }
                        },
                    }
                },
            }
        }
    }
}

/// Whether `path` is the canonical path of a recorded layer.
fn has_layer(layers: &Vec<LayerInfo>, path: &String) -> (r: bool)
    ensures
        r == layer_paths(layers@.map_values(|l: LayerInfo| l@)).contains(path@),
{
    let ghost paths = layer_paths(layers@.map_values(|l: LayerInfo| l@));
    let mut i: usize = 0;
    while i < layers.len()
        invariant
            paths == layer_paths(layers@.map_values(|l: LayerInfo| l@)),
            i <= layers.len(),
            forall|j: int| 0 <= j < i ==> paths[j] != path@,
        decreases layers.len() - i,
    {
        if layers[i].path == *path {
            assert(paths[i as int] == path@);
            return true;
        }
        i = i + 1;
    }
    false
}

impl Parts {
    /// One step on the answer to what the resolution waits for.
    fn step(&mut self, answer: Result<String, std::io::Error>)
        requires
            well_formed(old(self).model()),
        ensures
            final(self).model() == advance_model(old(self).model(), answer_view(answer)),
            follows_as_joined(queued(old(self).model(), answer_view(answer)), final(self).model()),
    {
        let ghost m0 = self.model();
        let mut stage = Stage::Done;
        std::mem::swap(&mut stage, &mut self.stage);
        match stage {
            Stage::Canonicalize(path, depth) => {
                let found = match answer {
                    Ok(c) => Some(c),
                    Err(_) => None,
                };
                if found.is_none() && depth > 0 {
                    self.settle();
                } else {
                    let canonical = match found {
                        Some(c) => c,
                        None => path.clone(),
                    };
                    if has_layer(&self.layers, &canonical) {
                        self.settle();
                    } else {
                        let ghost cv = canonical@;
                        self.layers.push(LayerInfo { depth, path: canonical });
                        self.stage = Stage::Read(path, depth);
                        self.failure = None;
                        proof {
                            assert(self.model().layers =~= m0.layers.push((depth as nat, cv)));
                            assert(self.model() =~= advance_model(m0, answer_view(answer)));
                        }
                    }
                }
            },
            Stage::Read(path, depth) => {
                match answer {
                    Err(e) => {
                        if depth > 0 {
                            self.failure = Some(Failure::Io(e));
                            proof {
                                assert(self.model() =~= advance_model(m0, None));
                            }
                        } else {
                            self.settle();
                        }
                    },
                    Ok(content) => {
                        let base = match path_parent(path.as_str()) {
                            Some(b) => b,
                            None => ".".to_owned(),
                        };
                        let mut refs = extract_at_refs(content.as_str());
                        let ghost rv = strings_view(refs@);
                        let ghost children = child_refs(path@, base@, rv, (depth + 1) as nat);
                        let ghost p0 = self.model().pending;
                        let n = refs.len();
                        let mut k = n;
                        proof {
                            assert(children.take(0) =~= Seq::<PendingModel>::empty());
                            assert(p0 + children.take(0) =~= p0);
                            assert(rv.take(n as int) =~= rv);
                        }
                        while k > 0
                            invariant
                                k <= n,
                                refs@.len() == k,
                                rv.len() == n,
                                strings_view(refs@) == rv.take(k as int),
                                depth < usize::MAX,
                                children == child_refs(path@, base@, rv, (depth + 1) as nat),
                                self.model().pending == p0 + children.take(n - k),
                                self.model().layers == m0.layers,
                            decreases k,
                        {
                            let ghost before = self.model().pending;
                            let ghost rb = refs@;
                            match refs.pop() {
                                Some(r) => {
                                    proof {
                                        assert(r == rb[k - 1]);
                                        assert(strings_view(rb)[k - 1] == rb[k - 1]@);
                                        assert(rv.take(k as int)[k - 1] == rv[k - 1]);
                                        assert(r@ == rv[k - 1]);
                                    }
                                    self.pending.push(
                                        PendingRef {
                                            file: path.clone(),
                                            base: base.clone(),
                                            reference: r,
                                            depth: depth + 1,
                                        },
                                    );
                                    proof {
                                        assert(strings_view(refs@) =~= rv.take(k - 1));
                                        assert(children[n - k] == PendingModel {
                                            file: path@,
                                            base: base@,
                                            reference: rv[k - 1],
                                            depth: (depth + 1) as nat,
                                        });
                                        assert(children.take(n - k + 1) =~= children.take(n - k).push(children[n - k]));
                                        assert(self.model().pending =~= before.push(children[n - k]));
                                        assert(self.model().pending =~= p0 + children.take(n - (k - 1)));
                                    }
                                    k = k - 1;
                                },
                                None => {
                                    k = 0;
                                },
                            }
                        }
                        proof {
                            assert(children.take(n as int) =~= children);
                            match path_parent_of(path@) {
                                Some(b) => assert(base@ == b),
                                None => assert(base@ == "."@),
                            }
                            assert(base@ == base_of(path@));
                        }
                        self.settle();
                    },
                }
            },
            Stage::Done => {},
        }
    }
}

/// The invariant of every resolution: the recorded canonical paths are
/// distinct; depths stay within `MAX_DEPTH`; the first layer is the root, at
/// depth 0, and only it has depth 0; each layer is at most one level deeper
/// than the one before (the layers come in depth-first order); pending
/// references lead at least one level deep, grow deeper towards the next one
/// to follow, and lead at most one level below the last layer; and a failure
/// ends the resolution.
pub open spec fn well_formed(m: ResolverModel) -> bool {
    let n = m.layers.len();
    let pend = m.pending;
    &&& layer_paths(m.layers).no_duplicates()
    &&& forall|k: int| 0 <= k < n ==> #[trigger] m.layers[k].0 <= MAX_DEPTH
    &&& n > 0 ==> m.layers[0].0 == 0
    &&& forall|k: int| 0 < k < n ==> #[trigger] m.layers[k].0 > 0
    &&& forall|k: int| 0 < k < n ==> #[trigger] m.layers[k].0 <= m.layers[k - 1].0 + 1
    &&& forall|i: int| 0 <= i < pend.len() ==> 1 <= #[trigger] pend[i].depth
    &&& forall|i: int, j: int| 0 <= i <= j < pend.len() ==> #[trigger] pend[i].depth <= #[trigger] pend[j].depth
    &&& n > 0 && pend.len() > 0 ==> pend.last().depth <= m.layers.last().0 + 1
    &&& n == 0 ==> (pend.len() == 0 && (m.stage matches StageModel::Canonicalize { depth, .. } && depth == 0))
    &&& match m.stage {
        StageModel::Canonicalize { depth, .. } => {
            &&& depth <= MAX_DEPTH
            &&& depth == 0 ==> n == 0
            &&& n > 0 ==> depth <= m.layers.last().0 + 1
            &&& forall|i: int| 0 <= i < pend.len() ==> #[trigger] pend[i].depth <= depth
        },
        StageModel::Read { depth, .. } => n > 0 && depth == m.layers.last().0,
        StageModel::Done => true,
    }
    &&& m.failure is Some ==> m.stage is Done
}

/// What `well_formed` asks of the layers and pending references alone, with
/// at least one layer recorded.
pub open spec fn settle_ready(layers: Seq<(nat, Seq<char>)>, pend: Seq<PendingModel>) -> bool {
    let n = layers.len();
    &&& n > 0
    &&& layer_paths(layers).no_duplicates()
    &&& forall|k: int| 0 <= k < n ==> #[trigger] layers[k].0 <= MAX_DEPTH
    &&& layers[0].0 == 0
    &&& forall|k: int| 0 < k < n ==> #[trigger] layers[k].0 > 0
    &&& forall|k: int| 0 < k < n ==> #[trigger] layers[k].0 <= layers[k - 1].0 + 1
    &&& forall|i: int| 0 <= i < pend.len() ==> 1 <= #[trigger] pend[i].depth
    &&& forall|i: int, j: int| 0 <= i <= j < pend.len() ==> #[trigger] pend[i].depth <= #[trigger] pend[j].depth
    &&& pend.len() > 0 ==> pend.last().depth <= layers.last().0 + 1
}

/// Following pending references keeps the invariant.
pub proof fn lemma_settle_well_formed(layers: Seq<(nat, Seq<char>)>, pend: Seq<PendingModel>)
    requires
        settle_ready(layers, pend),
    ensures
        well_formed(settle(layers, pend)),
        settle(layers, pend).layers == layers,
    decreases pend.len(),
{
    if pend.len() > 0 {
        let r = pend.last();
        let rest = pend.drop_last();
        assert forall|i: int| 0 <= i < rest.len() implies #[trigger] rest[i].depth <= r.depth by {
            assert(pend[i].depth <= pend[pend.len() - 1].depth);
        }
        assert(settle_ready(layers, rest)) by {
            assert forall|i: int, j: int| 0 <= i <= j < rest.len() implies #[trigger] rest[i].depth <= #[trigger] rest[j].depth by {
                assert(pend[i].depth <= pend[j].depth);
            }
            assert forall|i: int| 0 <= i < rest.len() implies 1 <= #[trigger] rest[i].depth by {
                assert(1 <= pend[i].depth);
            }
            if rest.len() > 0 {
                assert(rest.last().depth <= r.depth);
            }
        }
        if !r.reference.contains('\0') {
            match path_join_of(r.base, r.reference) {
                None => lemma_settle_well_formed(layers, rest),
                Some(p) => if r.depth > MAX_DEPTH {
                    lemma_settle_well_formed(layers, rest);
                } else {
                    assert(1 <= pend[pend.len() - 1].depth);
                },
            }
        }
    }
}

/// A resolution starts well formed.
pub proof fn lemma_start_well_formed(root: Seq<char>)
    ensures
        well_formed(start_model(root)),
{
}

/// Recording a new layer keeps the resolution well formed.
proof fn lemma_record_well_formed(m: ResolverModel, path: Seq<char>, depth: nat, canonical: Seq<char>)
    requires
        well_formed(m),
        m.stage == (StageModel::Canonicalize { path, depth }),
        !layer_paths(m.layers).contains(canonical),
    ensures
        well_formed(ResolverModel {
            layers: m.layers.push((depth, canonical)),
            pending: m.pending,
            stage: StageModel::Read { path, depth },
            failure: None,
        }),
        m.layers.is_prefix_of(m.layers.push((depth, canonical))),
{
    let n = m.layers.len();
    let l2 = m.layers.push((depth, canonical));
    assert(layer_paths(l2) =~= layer_paths(m.layers).push(canonical));
    assert forall|k: int| 0 < k < l2.len() implies #[trigger] l2[k].0 <= l2[k - 1].0 + 1 by {
        if k < n {
            assert(l2[k] == m.layers[k] && l2[k - 1] == m.layers[k - 1]);
        }
    }
    assert forall|k: int| 0 < k < l2.len() implies #[trigger] l2[k].0 > 0 by {
        if k < n {
            assert(l2[k] == m.layers[k]);
        }
    }
    assert forall|k: int| 0 <= k < l2.len() implies #[trigger] l2[k].0 <= MAX_DEPTH by {
        if k < n {
            assert(l2[k] == m.layers[k]);
        }
    }
    if n > 0 {
        assert(l2[0] == m.layers[0]);
    }
    if m.pending.len() > 0 {
        assert(m.pending.last().depth <= depth);
    }
    assert(l2.subrange(0, n as int) =~= m.layers);
}

/// Queueing the references of the layer just read keeps what following them
/// needs.
proof fn lemma_queue_ready(m: ResolverModel, path: Seq<char>, depth: nat, c: Seq<char>)
    requires
        well_formed(m),
        m.stage == (StageModel::Read { path, depth }),
    ensures
        settle_ready(m.layers, m.pending + child_refs(path, base_of(path), references(c), depth + 1)),
{
    let ch = child_refs(path, base_of(path), references(c), depth + 1);
    let p2 = m.pending + ch;
    assert forall|i: int| 0 <= i < m.pending.len() implies #[trigger] m.pending[i].depth <= depth + 1 by {
        assert(m.pending[i].depth <= m.pending[m.pending.len() - 1].depth);
    }
    assert forall|i: int, j: int| 0 <= i <= j < p2.len() implies #[trigger] p2[i].depth <= #[trigger] p2[j].depth by {
        if j < m.pending.len() {
            assert(p2[i] == m.pending[i] && p2[j] == m.pending[j]);
        } else if i < m.pending.len() {
            assert(p2[i] == m.pending[i]);
            assert(p2[j] == ch[j - m.pending.len()]);
        } else {
            assert(p2[i] == ch[i - m.pending.len()]);
            assert(p2[j] == ch[j - m.pending.len()]);
        }
    }
    assert forall|i: int| 0 <= i < p2.len() implies 1 <= #[trigger] p2[i].depth by {
        if i < m.pending.len() {
            assert(p2[i] == m.pending[i]);
        } else {
            assert(p2[i] == ch[i - m.pending.len()]);
        }
    }
    if p2.len() > 0 {
        if ch.len() > 0 {
            assert(p2.last() == ch[ch.len() - 1]);
        } else {
            assert(p2.last() == m.pending.last());
        }
    }
}

/// Every step keeps the resolution well formed: whatever the file system
/// answers, recorded paths stay distinct, depths stay bounded, the root stays
/// first, and the layers stay in depth-first order. Recorded layers are never
/// changed or dropped, and a step records at most one.
pub proof fn lemma_advance_well_formed(m: ResolverModel, answer: Option<Seq<char>>)
    requires
        well_formed(m),
    ensures
        well_formed(advance_model(m, answer)),
        m.layers.is_prefix_of(advance_model(m, answer).layers),
        advance_model(m, answer).layers.len() <= m.layers.len() + 1,
{
    assert(m.layers.subrange(0, m.layers.len() as int) =~= m.layers);
    match m.stage {
        StageModel::Canonicalize { path, depth } => {
            if answer is None && depth > 0 {
                lemma_settle_well_formed(m.layers, m.pending);
            } else {
                let canonical = match answer {
                    Some(c) => c,
                    None => path,
                };
                if layer_paths(m.layers).contains(canonical) {
                    lemma_settle_well_formed(m.layers, m.pending);
                } else {
                    lemma_record_well_formed(m, path, depth, canonical);
                }
            }
        },
        StageModel::Read { path, depth } => {
            match answer {
                None => {
                    lemma_settle_well_formed(m.layers, m.pending);
                },
                Some(c) => {
                    lemma_queue_ready(m, path, depth, c);
                    lemma_settle_well_formed(
                        m.layers,
                        m.pending + child_refs(path, base_of(path), references(c), depth + 1),
                    );
                },
            }
        },
        StageModel::Done => {},
    }
}

/// The first step always records the root, at depth 0: under its canonical
/// path, or under the path itself when it cannot be canonicalized.
pub proof fn lemma_root_recorded_first(root: Seq<char>, answer: Option<Seq<char>>)
    ensures
        advance_model(start_model(root), answer).layers == seq![
            (0nat, match answer {
                Some(c) => c,
                None => root,
            }),
        ],
{
    let canonical = match answer {
        Some(c) => c,
        None => root,
    };
    assert(!layer_paths(Seq::<(nat, Seq<char>)>::empty()).contains(canonical));
    assert(Seq::<(nat, Seq<char>)>::empty().push((0nat, canonical)) =~= seq![(0nat, canonical)]);
}

/// `r` is the outcome of the resolution `m`: the recorded layers when it did
/// not fail, else the error for its failure.
pub open spec fn finish_matches(r: Result<Vec<LayerInfo>, PipelineError>, m: ResolverModel) -> bool {
    match m.failure {
        None => r matches Ok(v) && v@.map_values(|l: LayerInfo| l@) == m.layers,
        Some(FailureModel::InvalidRef { file: f, detail: d }) => r matches Err(
            PipelineError::InvalidUsdRef { file, detail },
        ) && file@ == f && detail@ == d,
        Some(FailureModel::Io) => r matches Err(PipelineError::Io(_)),
    }
}

/// A resolution of USD layer references in progress. It asks for one file
/// system result at a time (see `action`) and is given the answer with
/// `advance`; `finish` hands out the outcome.
pub struct LayerResolver {
    parts: Parts,
}

impl LayerResolver {
    #[verifier::type_invariant]
    closed spec fn inv(self) -> bool {
        well_formed(self.parts.model())
    }
}

impl View for LayerResolver {
    type V = ResolverModel;

    closed spec fn view(&self) -> ResolverModel {
        self.parts.model()
    }
}

impl LayerResolver {
    /// Starts resolving the layer stack of the USD file at `root_path`.
    pub fn new(root_path: &str) -> (r: LayerResolver)
        ensures
            r@ == start_model(root_path@),
            well_formed(r@),
    {
        let parts = Parts {
            layers: Vec::new(),
            pending: Vec::new(),
            stage: Stage::Canonicalize(root_path.to_owned(), 0),
            failure: None,
        };
        proof {
            assert(parts.model() =~= start_model(root_path@));
        }
        LayerResolver { parts }
    }

    /// What the resolution waits for.
    pub fn action(&self) -> (a: ResolveAction)
        ensures
            action_matches(a, self@),
    {
        match &self.parts.stage {
            Stage::Canonicalize(p, _) => ResolveAction::Canonicalize(p.clone()),
            Stage::Read(p, _) => ResolveAction::Read(p.clone()),
            Stage::Done => ResolveAction::Done,
        }
    }

    /// Takes the answer to what the resolution waits for, and returns what it
    /// waits for next.
    pub fn advance(&mut self, answer: Result<String, std::io::Error>) -> (a: ResolveAction)
        ensures
            final(self)@ == advance_model(old(self)@, answer_view(answer)),
            follows_as_joined(queued(old(self)@, answer_view(answer)), final(self)@),
            well_formed(final(self)@),
            action_matches(a, final(self)@),
    {
        proof {
            use_type_invariant(&*self);
        }
        let mut parts = Parts {
            layers: Vec::new(),
            pending: Vec::new(),
            stage: Stage::Canonicalize(String::new(), 0),
            failure: None,
        };
        proof {
            assert(parts.model().layers =~= Seq::<(nat, Seq<char>)>::empty());
            assert(parts.model().pending =~= Seq::<PendingModel>::empty());
        }
        std::mem::swap(&mut parts, &mut self.parts);
        let ghost m0 = parts.model();
        let ghost av = answer_view(answer);
        parts.step(answer);
        proof {
            lemma_advance_well_formed(m0, av);
        }
        self.parts = parts;
        self.action()
    }

    /// The outcome: the layers recorded, in order, or the malformed
    /// reference that ended the resolution.
    pub fn finish(self) -> (r: Result<Vec<LayerInfo>, PipelineError>)
        requires
            self@.stage is Done,
        ensures
            finish_matches(r, self@),
    {
        let LayerResolver { parts } = self;
        let Parts { layers, pending, stage, failure } = parts;
        match failure {
            Some(Failure::InvalidRef(file, detail)) => Err(PipelineError::InvalidUsdRef { file, detail }),
            Some(Failure::Io(e)) => Err(PipelineError::Io(e)),
            None => Ok(layers),
        }
    }
}

// ---------------------------------------------------------------------------
// Agreement with the recursive resolution
// ---------------------------------------------------------------------------

/// A file system as the resolution sees it: what each path canonicalizes to
/// (`None`: it does not exist) and the text of each path (`None`: it cannot
/// be read).
pub struct FileSystem {
    pub canonical: spec_fn(Seq<char>) -> Option<Seq<char>>,
    pub text: spec_fn(Seq<char>) -> Option<Seq<char>>,
}

/// The layers found and the malformed reference met, if any.
pub struct Outcome {
    pub layers: Seq<(nat, Seq<char>)>,
    pub failure: Option<FailureModel>,
}

/// How many levels are left below `depth`.
pub open spec fn height(depth: nat) -> nat {
    if depth > MAX_DEPTH + 1 {
        0
    } else {
        (MAX_DEPTH + 2 - depth) as nat
    }
}

/// The recursive resolution of one layer, given the layers recorded before
/// it: a layer deeper than `MAX_DEPTH` is ignored; a referenced file that does
/// not exist is skipped (the root stands for itself); a canonical path already
/// recorded is skipped; otherwise the layer is recorded and its references are
/// resolved in order, one level deeper. A referenced layer whose text cannot
/// be read is an I/O failure; the root's then has no references.
pub open spec fn resolve_layer(fs: FileSystem, path: Seq<char>, depth: nat, layers: Seq<(nat, Seq<char>)>) -> Outcome
    decreases height(depth), 1nat, 0nat,
{
    if depth > MAX_DEPTH {
        Outcome { layers, failure: None }
    } else {
        let c = (fs.canonical)(path);
        if c is None && depth > 0 {
            Outcome { layers, failure: None }
        } else {
            let canonical = match c {
                Some(x) => x,
                None => path,
            };
            if layer_paths(layers).contains(canonical) {
                Outcome { layers, failure: None }
            } else {
                let recorded = layers.push((depth, canonical));
                match (fs.text)(path) {
                    None => Outcome { layers: recorded, failure: if depth > 0 { Some(FailureModel::Io) } else { None } },
                    Some(t) => resolve_refs(fs, path, base_of(path), references(t), depth + 1, recorded),
                }
            }
        }
    }
}

/// The recursive resolution of the references of `file`, in order: a
/// reference holding a NUL character fails; one whose joined path is not
/// valid UTF-8 is skipped; any other is resolved as a layer at `depth`, and a
/// failure there ends the whole resolution.
pub open spec fn resolve_refs(
    fs: FileSystem,
    file: Seq<char>,
    base: Seq<char>,
    refs: Seq<Seq<char>>,
    depth: nat,
    layers: Seq<(nat, Seq<char>)>,
) -> Outcome
    decreases height(depth) + 1, 0nat, refs.len(),
{
    if refs.len() == 0 {
        Outcome { layers, failure: None }
    } else {
        let r = refs[0];
        if r.contains('\0') {
            Outcome { layers, failure: Some(FailureModel::InvalidRef { file, detail: null_detail(r) }) }
        } else {
            match path_join_of(base, r) {
                None => resolve_refs(fs, file, base, refs.drop_first(), depth, layers),
                Some(p) => {
                    let o = resolve_layer(fs, p, depth, layers);
                    if o.failure is Some {
                        o
                    } else {
                        resolve_refs(fs, file, base, refs.drop_first(), depth, o.layers)
                    }
                },
            }
        }
    }
}

/// What the file system answers to what `m` waits for.
pub open spec fn answer_of(fs: FileSystem, m: ResolverModel) -> Option<Seq<char>> {
    match m.stage {
        StageModel::Canonicalize { path, .. } => (fs.canonical)(path),
        StageModel::Read { path, .. } => (fs.text)(path),
        StageModel::Done => None,
    }
}

/// `steps` steps of a resolution answered by `fs`.
pub open spec fn run(fs: FileSystem, m: ResolverModel, steps: nat) -> ResolverModel
    decreases steps,
{
    if steps == 0 {
        m
    } else {
        run(fs, advance_model(m, answer_of(fs, m)), (steps - 1) as nat)
    }
}

proof fn lemma_run_add(fs: FileSystem, m: ResolverModel, a: nat, b: nat)
    ensures
        run(fs, m, a + b) == run(fs, run(fs, m, a), b),
    decreases a,
{
    if a > 0 {
        lemma_run_add(fs, advance_model(m, answer_of(fs, m)), (a - 1) as nat, b);
        assert((a + b - 1) as nat == ((a - 1) as nat + b) as nat);
    }
}

/// `end` is where a resolution that produced `o` stands, with `pending` still
/// to follow.
pub open spec fn lands(end: ResolverModel, o: Outcome, pending: Seq<PendingModel>) -> bool {
    match o.failure {
        None => end == settle(o.layers, pending),
        Some(f) => end.stage is Done && end.layers == o.layers && end.failure == Some(f),
    }
}

proof fn lemma_child_refs_split(file: Seq<char>, base: Seq<char>, refs: Seq<Seq<char>>, depth: nat, pending: Seq<PendingModel>)
    requires
        refs.len() > 0,
    ensures
        pending + child_refs(file, base, refs, depth) == (pending + child_refs(file, base, refs.drop_first(), depth)).push(
            PendingModel { file, base, reference: refs[0], depth },
        ),
{
    let a = child_refs(file, base, refs, depth);
    let b = child_refs(file, base, refs.drop_first(), depth);
    assert(a =~= b.push(PendingModel { file, base, reference: refs[0], depth }));
}

/// Following the references of `file` in the machine, from where they were
/// queued above `pending`, ends as the recursive resolution of them does.
proof fn lemma_refs_agree(
    fs: FileSystem,
    file: Seq<char>,
    base: Seq<char>,
    refs: Seq<Seq<char>>,
    depth: nat,
    layers: Seq<(nat, Seq<char>)>,
    pending: Seq<PendingModel>,
) -> (n: nat)
    ensures
        lands(
            run(fs, settle(layers, pending + child_refs(file, base, refs, depth)), n),
            resolve_refs(fs, file, base, refs, depth, layers),
            pending,
        ),
    decreases height(depth) + 1, 0nat, refs.len(),
{
    if refs.len() == 0 {
        assert(pending + child_refs(file, base, refs, depth) =~= pending);
        0
    } else {
        let r = refs[0];
        let rest = refs.drop_first();
        let q = pending + child_refs(file, base, rest, depth);
        lemma_child_refs_split(file, base, refs, depth, pending);
        let item = PendingModel { file, base, reference: r, depth };
        assert(q.push(item).drop_last() =~= q);
        assert(q.push(item).last() == item);
        if r.contains('\0') {
            0
        } else {
            match path_join_of(base, r) {
                None => lemma_refs_agree(fs, file, base, rest, depth, layers, pending),
                Some(p) => {
                    if depth > MAX_DEPTH {
                        lemma_refs_agree(fs, file, base, rest, depth, layers, pending)
                    } else {
                        let s0 = settle(layers, q.push(item));
                        assert(s0 == ResolverModel {
                            layers,
                            pending: q,
                            stage: StageModel::Canonicalize { path: p, depth },
                            failure: None,
                        });
                        let n1 = lemma_layer_agrees(fs, s0, p, depth);
                        let o1 = resolve_layer(fs, p, depth, layers);
                        if o1.failure is Some {
                            n1
                        } else {
                            let n2 = lemma_refs_agree(fs, file, base, rest, depth, o1.layers, pending);
                            lemma_run_add(fs, s0, n1, n2);
                            n1 + n2
                        }
                    }
                },
            }
        }
    }
}

/// A layer the machine is about to canonicalize ends as its recursive
/// resolution does.
proof fn lemma_layer_agrees(fs: FileSystem, m: ResolverModel, path: Seq<char>, depth: nat) -> (n: nat)
    requires
        m.stage == (StageModel::Canonicalize { path, depth }),
        depth <= MAX_DEPTH,
    ensures
        lands(run(fs, m, n), resolve_layer(fs, path, depth, m.layers), m.pending),
    decreases height(depth), 1nat, 0nat,
{
    let c = (fs.canonical)(path);
    let m1 = advance_model(m, c);
    assert(run(fs, m, 1) == run(fs, m1, 0));
    if c is None && depth > 0 {
        1
    } else {
        let canonical = match c {
            Some(x) => x,
            None => path,
        };
        if layer_paths(m.layers).contains(canonical) {
            1
        } else {
            let recorded = m.layers.push((depth, canonical));
            let t = (fs.text)(path);
            let m2 = advance_model(m1, t);
            lemma_run_add(fs, m, 1, 1);
            assert(run(fs, m1, 1) == run(fs, m2, 0));
            match t {
                None => 2,
                Some(txt) => {
                    let n3 = lemma_refs_agree(fs, path, base_of(path), references(txt), depth + 1, recorded, m.pending);
                    lemma_run_add(fs, m, 2, n3);
                    2 + n3
                },
            }
        }
    }
}

/// The resolution the machine performs is the recursive one: answered by any
/// fixed file system, a resolution started at `root` is over after finitely
/// many steps, with exactly the layers and the failure of the recursive
/// resolution of `root`.
pub proof fn lemma_resolution_agrees(fs: FileSystem, root: Seq<char>) -> (n: nat)
    ensures
        run(fs, start_model(root), n).stage is Done,
        run(fs, start_model(root), n).layers == resolve_layer(fs, root, 0, Seq::empty()).layers,
        run(fs, start_model(root), n).failure == resolve_layer(fs, root, 0, Seq::empty()).failure,
{
    let n = lemma_layer_agrees(fs, start_model(root), root, 0);
    n
}

/// What resolving part of a layer stack does to the layers recorded before
/// it: they stay, in place; the paths stay distinct; and each layer added was
/// not recorded before and lies no shallower than `depth` and no deeper than
/// `MAX_DEPTH`.
pub open spec fn grows_from(layers: Seq<(nat, Seq<char>)>, after: Seq<(nat, Seq<char>)>, depth: nat) -> bool {
    &&& layers.is_prefix_of(after)
    &&& layer_paths(after).no_duplicates()
    &&& forall|k: int|
        layers.len() <= k < after.len() ==> !layer_paths(layers).contains(#[trigger] after[k].1) && depth
            <= after[k].0 <= MAX_DEPTH
}

proof fn lemma_grows_trans(a: Seq<(nat, Seq<char>)>, b: Seq<(nat, Seq<char>)>, c: Seq<(nat, Seq<char>)>, d1: nat, d2: nat)
    requires
        grows_from(a, b, d1),
        grows_from(b, c, d2),
        d1 <= d2,
    ensures
        grows_from(a, c, d1),
{
    assert(c.subrange(0, a.len() as int) =~= a) by {
        assert(c.subrange(0, b.len() as int) =~= b);
        assert(b.subrange(0, a.len() as int) =~= a);
        assert forall|k: int| 0 <= k < a.len() implies c[k] == a[k] by {
            assert(c.subrange(0, b.len() as int)[k] == c[k]);
            assert(b.subrange(0, a.len() as int)[k] == b[k]);
        }
    }
    assert forall|k: int| a.len() <= k < c.len() implies !layer_paths(a).contains(#[trigger] c[k].1) && d1 <= c[k].0
        <= MAX_DEPTH by {
        if k < b.len() {
            assert(c.subrange(0, b.len() as int)[k] == c[k]);
            assert(b.subrange(0, b.len() as int) =~= b);
            assert(b[k] == c[k]);
        } else {
            assert(!layer_paths(b).contains(c[k].1));
            if layer_paths(a).contains(c[k].1) {
                let j = choose|j: int| 0 <= j < layer_paths(a).len() && layer_paths(a)[j] == c[k].1;
                assert(b.subrange(0, a.len() as int)[j] == b[j]);
                assert(b.subrange(0, a.len() as int) =~= a);
                assert(layer_paths(b)[j] == c[k].1);
            }
        }
    }
}

proof fn lemma_grows_refl(layers: Seq<(nat, Seq<char>)>, depth: nat)
    requires
        layer_paths(layers).no_duplicates(),
    ensures
        grows_from(layers, layers, depth),
{
    assert(layers.subrange(0, layers.len() as int) =~= layers);
}

/// Resolving a layer only adds new layers, at its depth or deeper (see
/// `grows_from`).
pub proof fn lemma_resolve_layer_grows(fs: FileSystem, path: Seq<char>, depth: nat, layers: Seq<(nat, Seq<char>)>)
    requires
        layer_paths(layers).no_duplicates(),
    ensures
        grows_from(layers, resolve_layer(fs, path, depth, layers).layers, depth),
    decreases height(depth), 1nat, 0nat,
{
    lemma_grows_refl(layers, depth);
    if depth <= MAX_DEPTH {
        let c = (fs.canonical)(path);
        if !(c is None && depth > 0) {
            let canonical = match c {
                Some(x) => x,
                None => path,
            };
            if !layer_paths(layers).contains(canonical) {
                let recorded = layers.push((depth, canonical));
                assert(layer_paths(recorded) =~= layer_paths(layers).push(canonical));
                assert(grows_from(layers, recorded, depth)) by {
                    assert(recorded.subrange(0, layers.len() as int) =~= layers);
                }
                match (fs.text)(path) {
                    None => {},
                    Some(t) => {
                        lemma_resolve_refs_grows(fs, path, base_of(path), references(t), depth + 1, recorded);
                        lemma_grows_trans(
                            layers,
                            recorded,
                            resolve_refs(fs, path, base_of(path), references(t), depth + 1, recorded).layers,
                            depth,
                            depth + 1,
                        );
                    },
                }
            }
        }
    }
}

/// Resolving the references of a layer only adds new layers, at `depth` or
/// deeper (see `grows_from`).
pub proof fn lemma_resolve_refs_grows(
    fs: FileSystem,
    file: Seq<char>,
    base: Seq<char>,
    refs: Seq<Seq<char>>,
    depth: nat,
    layers: Seq<(nat, Seq<char>)>,
)
    requires
        layer_paths(layers).no_duplicates(),
    ensures
        grows_from(layers, resolve_refs(fs, file, base, refs, depth, layers).layers, depth),
    decreases height(depth) + 1, 0nat, refs.len(),
{
    lemma_grows_refl(layers, depth);
    if refs.len() > 0 {
        let r = refs[0];
        if !r.contains('\0') {
            match path_join_of(base, r) {
                None => lemma_resolve_refs_grows(fs, file, base, refs.drop_first(), depth, layers),
                Some(p) => {
                    lemma_resolve_layer_grows(fs, p, depth, layers);
                    let o = resolve_layer(fs, p, depth, layers);
                    if o.failure is None {
                        lemma_resolve_refs_grows(fs, file, base, refs.drop_first(), depth, o.layers);
                        lemma_grows_trans(
                            layers,
                            o.layers,
                            resolve_refs(fs, file, base, refs.drop_first(), depth, o.layers).layers,
                            depth,
                            depth,
                        );
                    }
                },
            }
        }
    }
}

} // verus!
