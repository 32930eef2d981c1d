//! The sortable-key model and the order-violation detector.
//!
//! A construct's entries (enum variants or match-arm patterns) classify into
//! [`Sortable`] keys: a bare identifier, a qualified path (compared by its
//! stringified form), or the wildcard, which sorts strictly after everything
//! else. [`check_sorting`] finds, for every entry that breaks the order, the
//! single smallest earlier key it must precede.

use vstd::prelude::*;

use crate::lex::lemma_lex_connected;
use crate::lex::lemma_lex_lt_irrefl;
use crate::lex::lemma_lex_lt_trans;
use crate::lex::lex_lt;
use crate::lex::str_lt;

verus! {

// ---------------------------------------------------------------------------
// The key model.
// ---------------------------------------------------------------------------

/// Mathematical model of one sortable key.
pub enum KeyView {
    Ident(Seq<char>),
    Path(Seq<Seq<char>>),
    Wildcard,
}

/// The separator between the segments of a stringified path.
pub open spec fn path_sep() -> Seq<char> {
    "::"@
}

/// Segment names joined by the path separator.
pub open spec fn join_segments(segs: Seq<Seq<char>>) -> Seq<char>
    decreases segs.len(),
{
    if segs.len() == 0 {
        Seq::empty()
    } else if segs.len() == 1 {
        segs[0]
    } else {
        join_segments(segs.drop_last()) + path_sep() + segs.last()
    }
}

/// The text a key is compared by, and rendered as in diagnostics.
pub open spec fn key_str(k: KeyView) -> Seq<char> {
    match k {
        KeyView::Ident(name) => name,
        KeyView::Path(segs) => join_segments(segs),
        KeyView::Wildcard => "wildcard"@,
    }
}

/// The strict total order over keys: identifiers and paths compare as plain
/// strings; the wildcard sorts strictly after every other key and is equal
/// to another wildcard.
pub open spec fn key_lt(a: KeyView, b: KeyView) -> bool {
    match (a, b) {
        (KeyView::Wildcard, _) => false,
        (_, KeyView::Wildcard) => true,
        _ => lex_lt(key_str(a), key_str(b)),
    }
}

/// `a` sorts no later than `b`.
pub open spec fn key_le(a: KeyView, b: KeyView) -> bool {
    !key_lt(b, a)
}

pub proof fn lemma_key_lt_irrefl(a: KeyView)
    ensures
        !key_lt(a, a),
{
    if !(a is Wildcard) {
        lemma_lex_lt_irrefl(key_str(a));
    }
}

pub proof fn lemma_key_lt_trans(a: KeyView, b: KeyView, c: KeyView)
    requires
        key_lt(a, b),
        key_lt(b, c),
    ensures
        key_lt(a, c),
{
    if !(c is Wildcard) {
        lemma_lex_lt_trans(key_str(a), key_str(b), key_str(c));
    }
}

/// `a < b` and `b <= c` give `a < c`.
pub proof fn lemma_key_lt_le_trans(a: KeyView, b: KeyView, c: KeyView)
    requires
        key_lt(a, b),
        key_le(b, c),
    ensures
        key_lt(a, c),
{
    if c is Wildcard {
        // `a` is not the wildcard, so it sorts before the wildcard.
    } else {
        // `c` is a plain key; so is `b`, else `c < b` would hold.
        lemma_lex_connected(key_str(b), key_str(c));
        if lex_lt(key_str(b), key_str(c)) {
            lemma_lex_lt_trans(key_str(a), key_str(b), key_str(c));
        }
    }
}

/// The key order is total: two keys that compare strictly neither way are
/// order-equal — both are the wildcard, or they have the same comparison
/// text. The detector's minimality guarantee rests on this.
pub proof fn lemma_key_connected(a: KeyView, b: KeyView)
    requires
        !key_lt(a, b),
        !key_lt(b, a),
    ensures
        a is Wildcard <==> b is Wildcard,
        key_str(a) == key_str(b),
{
    if !(a is Wildcard) && !(b is Wildcard) {
        lemma_lex_connected(key_str(a), key_str(b));
    }
}

/// `a <= b` and `b <= c` give `a <= c`.
pub proof fn lemma_key_le_trans(a: KeyView, b: KeyView, c: KeyView)
    requires
        key_le(a, b),
        key_le(b, c),
    ensures
        key_le(a, c),
{
    if key_lt(c, a) {
        lemma_key_lt_le_trans(c, a, b);
        lemma_key_lt_irrefl(b);
        lemma_key_lt_le_trans(c, b, c);
        lemma_key_lt_irrefl(c);
    }
}

// ---------------------------------------------------------------------------
// Executable keys.
// ---------------------------------------------------------------------------

/// A qualified path reduced to what the order needs: its segment names and
/// their joined, stringified form, which is the comparison key.
pub struct SimplifiedPath {
    pub segments: Vec<String>,
    pub stringified: String,
}

impl SimplifiedPath {
    /// The stringified form is exactly the segments joined by the separator.
    pub open spec fn wf(&self) -> bool {
        self.stringified@ == join_segments(self.segments.deep_view())
    }
}

/// One classified, comparable entry of a construct.
pub enum Sortable {
    Ident(String),
    Path(SimplifiedPath),
    Wildcard,
}

impl View for Sortable {
    type V = KeyView;

    open spec fn view(&self) -> KeyView {
        match self {
            Sortable::Ident(name) => KeyView::Ident(name@),
            Sortable::Path(p) => KeyView::Path(p.segments.deep_view()),
            Sortable::Wildcard => KeyView::Wildcard,
        }
    }
}

impl Sortable {
    pub open spec fn wf(&self) -> bool {
        match self {
            Sortable::Path(p) => p.wf(),
            _ => true,
        }
    }

    /// The text this key is compared by and rendered as.
    pub fn key_text(&self) -> (r: &str)
        requires
            self.wf(),
        ensures
            r@ == key_str(self@),
    {
        match self {
            Sortable::Ident(name) => name.as_str(),
            Sortable::Path(p) => p.stringified.as_str(),
            Sortable::Wildcard => "wildcard",
        }
    }

    /// The human-readable rendering used in diagnostics.
    pub fn render(&self) -> (r: String)
        requires
            self.wf(),
        ensures
            r@ == key_str(self@),
    {
        String::from_str(self.key_text())
    }

    /// Executable strict comparison under the key order.
    pub fn sorts_before(&self, other: &Sortable) -> (r: bool)
        requires
            self.wf(),
            other.wf(),
        ensures
            r == key_lt(self@, other@),
    {
        match (self, other) {
            (Sortable::Wildcard, _) => false,
            (_, Sortable::Wildcard) => true,
            _ => str_lt(self.key_text(), other.key_text()),
        }
    }
}

// ---------------------------------------------------------------------------
// Raw paths and their classification into keys.
// ---------------------------------------------------------------------------

/// One raw path segment: its identifier and whether it carries argument
/// syntax (generic or parenthesized arguments), which the checker rejects.
pub struct PathSegment {
    pub name: String,
    pub has_arguments: bool,
}

pub struct PathSegmentV {
    pub name: Seq<char>,
    pub has_arguments: bool,
}

impl View for PathSegment {
    type V = PathSegmentV;

    open spec fn view(&self) -> PathSegmentV {
        PathSegmentV { name: self.name@, has_arguments: self.has_arguments }
    }
}

/// A raw path as the parser exposes it: whether it starts with a leading
/// root qualifier, and its segments.
pub struct PathModel {
    pub leading_root: bool,
    pub segments: Vec<PathSegment>,
}

pub struct PathModelV {
    pub leading_root: bool,
    pub segments: Seq<PathSegmentV>,
}

impl View for PathModel {
    type V = PathModelV;

    open spec fn view(&self) -> PathModelV {
        PathModelV {
            leading_root: self.leading_root,
            segments: self.segments@.map_values(|s: PathSegment| s@),
        }
    }
}

/// Why an entry could not be classified into a sortable key.
#[derive(Clone, Copy, Debug, PartialEq, Eq, Structural)]
pub enum ClassifyError {
    /// The path starts with a leading root qualifier.
    LeadingRoot,
    /// The segment at this index carries argument syntax.
    SegmentArguments { segment: usize },
    /// The pattern's shape is not supported by sortedness checking at all.
    Unsupported,
}

/// The names of a segment sequence.
pub open spec fn seg_names(segs: Seq<PathSegmentV>) -> Seq<Seq<char>> {
    segs.map_values(|g: PathSegmentV| g.name)
}

/// How many leading segments are free of argument syntax; equals the length
/// when every segment is clean, else the index of the first offending one.
pub open spec fn clean_prefix_len(segs: Seq<PathSegmentV>) -> int
    decreases segs.len(),
{
    if segs.len() == 0 {
        0
    } else if segs[0].has_arguments {
        0
    } else {
        1 + clean_prefix_len(segs.skip(1))
    }
}

/// Pins `clean_prefix_len` down from a first-offender characterization.
pub proof fn lemma_clean_prefix_val(segs: Seq<PathSegmentV>, i: int)
    requires
        0 <= i <= segs.len(),
        forall|k: int| 0 <= k < i ==> !(#[trigger] segs[k]).has_arguments,
        i < segs.len() ==> segs[i].has_arguments,
    ensures
        clean_prefix_len(segs) == i,
    decreases segs.len(),
{
    if segs.len() == 0 {
    } else if segs[0].has_arguments {
        assert(i == 0);
    } else {
        assert(i > 0);
        lemma_clean_prefix_val(segs.skip(1), i - 1);
    }
}

/// A path may become a key exactly when it has no leading root qualifier
/// and no segment carries arguments.
pub open spec fn path_ok(p: PathModelV) -> bool {
    !p.leading_root && clean_prefix_len(p.segments) == p.segments.len()
}

/// The error reported for a rejected path: the leading root qualifier, or
/// else the first segment with argument syntax.
pub open spec fn path_error(p: PathModelV) -> ClassifyError {
    if p.leading_root {
        ClassifyError::LeadingRoot
    } else {
        ClassifyError::SegmentArguments { segment: clean_prefix_len(p.segments) as usize }
    }
}

impl SimplifiedPath {
    /// Classify a raw path, rejecting a leading root qualifier and any
    /// segment with argument syntax; on success the key's stringified form
    /// is the segment names joined by the separator.
    pub fn try_from_model(path: &PathModel) -> (r: Result<SimplifiedPath, ClassifyError>)
        ensures
            path_ok(path@) ==> (r matches Ok(sp) && sp.wf() && sp.segments.deep_view()
                == seg_names(path@.segments)),
            !path_ok(path@) ==> r == Err::<SimplifiedPath, ClassifyError>(path_error(path@)),
    {
        if path.leading_root {
            return Err(ClassifyError::LeadingRoot);
        }
        let n = path.segments.len();
        let mut segments: Vec<String> = Vec::new();
        let mut stringified = String::new();
        let mut i: usize = 0;
        while i < n
            invariant
                i <= n,
                n == path.segments@.len(),
                !path.leading_root,
                segments@.len() == i,
                forall|k: int| 0 <= k < i ==> !(#[trigger] path@.segments[k]).has_arguments,
                segments.deep_view() =~= seg_names(path@.segments.take(i as int)),
                stringified@ == join_segments(segments.deep_view()),
            decreases n - i,
        {
            let seg = &path.segments[i];
            if seg.has_arguments {
                proof {
                    lemma_clean_prefix_val(path@.segments, i as int);
                }
                return Err(ClassifyError::SegmentArguments { segment: i });
            }
            let ghost old_names = segments.deep_view();
            if i > 0 {
                stringified.append("::");
            }
            stringified.append(seg.name.as_str());
            segments.push(seg.name.clone());
            proof {
                assert(segments.deep_view() =~= old_names.push(seg.name@));
                let new_names = old_names.push(seg.name@);
                if old_names.len() == 0 {
                    assert(join_segments(new_names) == seg.name@);
                } else {
                    assert(new_names.drop_last() =~= old_names);
                    assert(join_segments(new_names) == join_segments(old_names) + path_sep()
                        + seg.name@);
                }
                assert(segments.deep_view() =~= seg_names(path@.segments.take(i + 1)));
            }
            i = i + 1;
        }
        proof {
            lemma_clean_prefix_val(path@.segments, n as int);
            assert(path@.segments.take(n as int) =~= path@.segments);
        }
        Ok(SimplifiedPath { segments, stringified })
    }
}

// ---------------------------------------------------------------------------
// The violation detector.
// ---------------------------------------------------------------------------

/// One order violation: the entry at `offender` must move to sort before the
/// earlier entry at `reference`; `message` is the rendered diagnostic text.
pub struct Violation {
    pub offender: usize,
    pub reference: usize,
    pub message: String,
}

/// The diagnostic text: the offender's rendering, then the fixed phrase,
/// then the reference's rendering.
pub open spec fn violation_message_spec(offender: KeyView, reference: KeyView) -> Seq<char> {
    key_str(offender) + " should sort before "@ + key_str(reference)
}

/// Builds the diagnostic text for one violation.
pub fn violation_message(offender: &Sortable, reference: &Sortable) -> (r: String)
    requires
        offender.wf(),
        reference.wf(),
    ensures
        r@ == violation_message_spec(offender@, reference@),
{
    let mut m = offender.render();
    m.append(" should sort before ");
    m.append(reference.key_text());
    m
}

/// The views of a key sequence.
pub open spec fn keys_view(ks: Seq<Sortable>) -> Seq<KeyView> {
    ks.map_values(|k: Sortable| k@)
}

/// The entry at `j` is out of order against the earlier entry at `i`.
pub open spec fn violates(s: Seq<KeyView>, i: int, j: int) -> bool {
    0 <= i < j < s.len() && key_lt(s[j], s[i])
}

/// Some earlier entry orders strictly after the entry at `j`.
pub open spec fn has_violation(s: Seq<KeyView>, j: int) -> bool {
    exists|i: int| violates(s, i, j)
}

/// `i` is the position of the smallest earlier key that the entry at `j`
/// violates — and the earliest such position among order-equal ones.
pub open spec fn is_min_violator(s: Seq<KeyView>, i: int, j: int) -> bool {
    &&& violates(s, i, j)
    &&& forall|k: int| violates(s, k, j) ==> key_le(s[i], s[k])
    &&& forall|k: int| 0 <= k < i && violates(s, k, j) ==> key_lt(s[i], s[k])
}

/// One reported violation is sound: its offender is in range, its reference
/// is the minimal violated predecessor, and its message renders both keys.
pub open spec fn violation_ok(s: Seq<KeyView>, v: Violation) -> bool {
    &&& v.offender < s.len()
    &&& is_min_violator(s, v.reference as int, v.offender as int)
    &&& v.message@ == violation_message_spec(s[v.offender as int], s[v.reference as int])
}

/// The detector's full contract: every reported violation is sound, an entry
/// is reported exactly when it has a violation, and reports come in position
/// order.
pub open spec fn detector_post(s: Seq<KeyView>, r: Seq<Violation>) -> bool {
    &&& forall|p: int| 0 <= p < r.len() ==> violation_ok(s, #[trigger] r[p])
    &&& forall|j: int|
        0 <= j < s.len() ==> (#[trigger] has_violation(s, j) <==> exists|p: int|
            0 <= p < r.len() && (#[trigger] r[p]).offender == j)
    &&& forall|p: int, q: int|
        0 <= p < q < r.len() ==> (#[trigger] r[p]).offender < (#[trigger] r[q]).offender
}

/// Finds all order violations in a classified key sequence, reporting for
/// each out-of-place entry the single smallest earlier key it must precede.
#[verifier::loop_isolation(false)]
pub fn check_sorting(keys: &Vec<Sortable>) -> (r: Vec<Violation>)
    requires
        forall|i: int| 0 <= i < keys@.len() ==> (#[trigger] keys@[i]).wf(),
    ensures
        detector_post(keys_view(keys@), r@),
{
    let ghost s = keys_view(keys@);
    let n = keys.len();
    let mut result: Vec<Violation> = Vec::new();
    let mut j: usize = 0;
    while j < n
        invariant
            j <= n,
            forall|p: int| 0 <= p < result@.len() ==> violation_ok(s, #[trigger] result@[p]),
            forall|p: int| 0 <= p < result@.len() ==> (#[trigger] result@[p]).offender < j,
            forall|jj: int|
                0 <= jj < j ==> (#[trigger] has_violation(s, jj) <==> exists|p: int|
                    0 <= p < result@.len() && (#[trigger] result@[p]).offender == jj),
            forall|p: int, q: int|
                0 <= p < q < result@.len() ==> (#[trigger] result@[p]).offender < (
                #[trigger] result@[q]).offender,
        decreases n - j,
    {
        let mut best: Option<usize> = None;
        let mut i: usize = 0;
        while i < j
            invariant
                i <= j,
                best matches Some(b) ==> b < i && violates(s, b as int, j as int) && (forall|
                    k: int,
                |
                    0 <= k < i && violates(s, k, j as int) ==> key_le(
                        s[b as int],
                        #[trigger] s[k],
                    )) && (forall|k: int|
                    0 <= k < b && violates(s, k, j as int) ==> key_lt(
                        s[b as int],
                        #[trigger] s[k],
                    )),
                best is None ==> forall|k: int| 0 <= k < i ==> !violates(s, k, j as int),
            decreases j - i,
        {
            if keys[j].sorts_before(&keys[i]) {
                match best {
                    None => {
                        proof {
                            lemma_key_lt_irrefl(s[i as int]);
                        }
                        best = Some(i);
                    },
                    Some(b) => {
                        if keys[i].sorts_before(&keys[b]) {
                            proof {
                                assert forall|k: int|
                                    0 <= k < i + 1 && violates(s, k, j as int) implies key_le(
                                    s[i as int],
                                    #[trigger] s[k],
                                ) by {
                                    if k == i {
                                        lemma_key_lt_irrefl(s[k]);
                                    } else if key_lt(s[k], s[i as int]) {
                                        lemma_key_lt_trans(s[k], s[i as int], s[b as int]);
                                    }
                                }
                                assert forall|k: int|
                                    0 <= k < i && violates(s, k, j as int) implies key_lt(
                                    s[i as int],
                                    #[trigger] s[k],
                                ) by {
                                    lemma_key_lt_le_trans(s[i as int], s[b as int], s[k]);
                                }
                            }
                            best = Some(i);
                        }
                    },
                }
            }
            i = i + 1;
        }
        match best {
            Some(b) => {
                let msg = violation_message(&keys[j], &keys[b]);
                let v = Violation { offender: j, reference: b, message: msg };
                let ghost old_r = result@;
                proof {
                    assert(violation_ok(s, v));
                }
                result.push(v);
                proof {
                    assert forall|jj: int|
                        0 <= jj < j + 1 implies (#[trigger] has_violation(s, jj) <==> exists|
                        p: int,
                    |
                        0 <= p < result@.len() && (#[trigger] result@[p]).offender == jj) by {
                        if jj == j as int {
                            assert(violates(s, b as int, jj));
                            assert((result@[result@.len() - 1]).offender == jj);
                        } else {
                            if has_violation(s, jj) {
                                let p = choose|p: int|
                                    0 <= p < old_r.len() && (#[trigger] old_r[p]).offender == jj;
                                assert((result@[p]).offender == jj);
                            }
                            if exists|p: int|
                                0 <= p < result@.len() && (#[trigger] result@[p]).offender == jj {
                                let p = choose|p: int|
                                    0 <= p < result@.len() && (#[trigger] result@[p]).offender
                                        == jj;
                                assert(p < old_r.len());
                                assert((old_r[p]).offender == jj);
                            }
                        }
                    }
                }
            },
            None => {
                proof {
                    assert(!has_violation(s, j as int)) by {
                        if has_violation(s, j as int) {
                            let i0 = choose|i0: int| violates(s, i0, j as int);
                            assert(0 <= i0 < j);
                        }
                    }
                    assert forall|jj: int|
                        0 <= jj < j + 1 implies (#[trigger] has_violation(s, jj) <==> exists|
                        p: int,
                    |
                        0 <= p < result@.len() && (#[trigger] result@[p]).offender == jj) by {
                        if jj == j as int {
                            if exists|p: int|
                                0 <= p < result@.len() && (#[trigger] result@[p]).offender == jj {
                                let p = choose|p: int|
                                    0 <= p < result@.len() && (#[trigger] result@[p]).offender
                                        == jj;
                                assert((result@[p]).offender < j);
                            }
                        }
                    }
                }
            },
        }
        j = j + 1;
    }
    result
}

// ---------------------------------------------------------------------------
// Laws of the detector.
// ---------------------------------------------------------------------------

/// Keys in non-decreasing order: each entry sorts no later than the next.
pub open spec fn sorted_keys(s: Seq<KeyView>) -> bool {
    forall|i: int| 0 <= i < s.len() - 1 ==> key_le(#[trigger] s[i], s[i + 1])
}

/// In a non-decreasing sequence every earlier entry sorts no later than
/// every later one.
pub proof fn lemma_sorted_pairs(s: Seq<KeyView>, i: int, j: int)
    requires
        sorted_keys(s),
        0 <= i <= j < s.len(),
    ensures
        key_le(s[i], s[j]),
    decreases j - i,
{
    if i == j {
        lemma_key_lt_irrefl(s[i]);
    } else {
        lemma_sorted_pairs(s, i, j - 1);
        lemma_key_le_trans(s[i], s[j - 1], s[j]);
    }
}

/// A sequence of keys already in non-decreasing order has no violation at
/// any position.
pub proof fn lemma_sorted_no_violation(s: Seq<KeyView>)
    requires
        sorted_keys(s),
    ensures
        forall|j: int| !has_violation(s, j),
{
    assert forall|j: int| !has_violation(s, j) by {
        if has_violation(s, j) {
            let i = choose|i: int| violates(s, i, j);
            lemma_sorted_pairs(s, i, j);
        }
    }
}

/// For keys already in non-decreasing order, any result the detector's
/// contract admits is empty.
pub proof fn lemma_sorted_detector_empty(s: Seq<KeyView>, r: Seq<Violation>)
    requires
        sorted_keys(s),
        detector_post(s, r),
    ensures
        r.len() == 0,
{
    lemma_sorted_no_violation(s);
    if r.len() > 0 {
        assert(violation_ok(s, r[0]));
        assert(has_violation(s, r[0].offender as int));
    }
}

/// A non-wildcard entry anywhere after a wildcard is a genuine violation:
/// the wildcard must come last.
pub proof fn lemma_nonwildcard_after_wildcard(s: Seq<KeyView>, i: int, j: int)
    requires
        0 <= i < j < s.len(),
        s[i] is Wildcard,
        !(s[j] is Wildcard),
    ensures
        violates(s, i, j),
        has_violation(s, j),
{
    assert(key_lt(s[j], s[i]));
    assert(violates(s, i, j));
}

/// For one offending entry the minimal violated predecessor is unique.
pub proof fn lemma_min_violator_unique(s: Seq<KeyView>, j: int, i1: int, i2: int)
    requires
        is_min_violator(s, i1, j),
        is_min_violator(s, i2, j),
    ensures
        i1 == i2,
{
    if i1 < i2 {
        assert(violates(s, i1, j));
        assert(key_lt(s[i2], s[i1]));
        assert(!key_lt(s[i2], s[i1]));
    } else if i2 < i1 {
        assert(violates(s, i2, j));
        assert(key_lt(s[i1], s[i2]));
        assert(!key_lt(s[i1], s[i2]));
    }
}

proof fn lemma_detector_pointwise(s: Seq<KeyView>, r1: Seq<Violation>, r2: Seq<Violation>, p: int)
    requires
        detector_post(s, r1),
        detector_post(s, r2),
        0 <= p < r1.len(),
        p < r2.len(),
    ensures
        r1[p].offender == r2[p].offender,
    decreases p,
{
    let j1 = r1[p].offender as int;
    assert(violation_ok(s, r1[p]));
    assert(has_violation(s, j1)) by {
        assert(violates(s, r1[p].reference as int, j1));
    }
    let q1 = choose|q: int| 0 <= q < r2.len() && (#[trigger] r2[q]).offender == j1;
    if q1 < p {
        lemma_detector_pointwise(s, r1, r2, q1);
        assert(false);
    }
    assert(r2[p].offender <= j1);

    let j2 = r2[p].offender as int;
    assert(violation_ok(s, r2[p]));
    assert(has_violation(s, j2)) by {
        assert(violates(s, r2[p].reference as int, j2));
    }
    let q2 = choose|q: int| 0 <= q < r1.len() && (#[trigger] r1[q]).offender == j2;
    if q2 < p {
        lemma_detector_pointwise(s, r1, r2, q2);
        assert(false);
    }
    assert(r1[p].offender <= j2);
}

/// The detector's contract is categorical: any two results it admits for
/// the same keys agree entry by entry, so checking is deterministic.
pub proof fn lemma_detector_deterministic(
    s: Seq<KeyView>,
    r1: Seq<Violation>,
    r2: Seq<Violation>,
)
    requires
        detector_post(s, r1),
        detector_post(s, r2),
    ensures
        r1.len() == r2.len(),
        forall|p: int|
            0 <= p < r1.len() ==> (#[trigger] r1[p]).offender == r2[p].offender
                && r1[p].reference == r2[p].reference && r1[p].message@ == r2[p].message@,
{
    if r1.len() < r2.len() {
        let p = r1.len() as int;
        let j = r2[p].offender as int;
        assert(violation_ok(s, r2[p]));
        assert(has_violation(s, j)) by {
            assert(violates(s, r2[p].reference as int, j));
        }
        let q = choose|q: int| 0 <= q < r1.len() && (#[trigger] r1[q]).offender == j;
        lemma_detector_pointwise(s, r1, r2, q);
        assert(false);
    }
    if r2.len() < r1.len() {
        let p = r2.len() as int;
        let j = r1[p].offender as int;
        assert(violation_ok(s, r1[p]));
        assert(has_violation(s, j)) by {
            assert(violates(s, r1[p].reference as int, j));
        }
        let q = choose|q: int| 0 <= q < r2.len() && (#[trigger] r2[q]).offender == j;
        lemma_detector_pointwise(s, r2, r1, q);
        assert(false);
    }
    assert forall|p: int|
        0 <= p < r1.len() implies (#[trigger] r1[p]).offender == r2[p].offender
            && r1[p].reference == r2[p].reference && r1[p].message@ == r2[p].message@ by {
        lemma_detector_pointwise(s, r1, r2, p);
        let j = r1[p].offender as int;
        lemma_min_violator_unique(s, j, r1[p].reference as int, r2[p].reference as int);
    }
}

/// A wildcard entry is never reported as an offender: no key orders
/// strictly after it.
pub proof fn lemma_wildcard_never_flagged(s: Seq<KeyView>, j: int)
    requires
        0 <= j < s.len(),
        s[j] is Wildcard,
    ensures
        !has_violation(s, j),
{
    assert forall|i: int| !violates(s, i, j) by {
        assert(!key_lt(s[j], s[i]));
    }
}

} // verus!
