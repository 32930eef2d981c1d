//! The pattern classifier and the per-construct checking policy for match
//! expressions found in a function body.
//!
//! Each marked match expression is handled independently and all-or-nothing:
//! if any arm fails to classify, only that classification error is reported
//! and the order check is skipped for the whole match; if every arm
//! classifies, the violation detector runs on the keys. The marker is
//! stripped from the construct whatever the outcome.

use vstd::prelude::*;

use crate::check_sorting::check_sorting;
use crate::check_sorting::detector_post;
use crate::check_sorting::keys_view;
use crate::check_sorting::lemma_sorted_detector_empty;
use crate::check_sorting::path_error;
use crate::check_sorting::path_ok;
use crate::check_sorting::seg_names;
use crate::check_sorting::sorted_keys;
use crate::check_sorting::ClassifyError;
use crate::check_sorting::KeyView;
use crate::check_sorting::PathModel;
use crate::check_sorting::PathModelV;
use crate::check_sorting::SimplifiedPath;
use crate::check_sorting::Sortable;
use crate::check_sorting::Violation;

verus! {

// ---------------------------------------------------------------------------
// Raw patterns and their classification.
// ---------------------------------------------------------------------------

/// One raw match-arm pattern, reduced to the shapes the checker can tell
/// apart: a bare binding name, a path (bare, struct-shaped or tuple-shaped),
/// the wildcard, or anything else.
pub enum Pattern {
    Binding(String),
    Path(PathModel),
    Wildcard,
    Other,
}

/// Mathematical model of one raw pattern.
pub enum PatternV {
    Binding(Seq<char>),
    Path(PathModelV),
    Wildcard,
    Other,
}

impl View for Pattern {
    type V = PatternV;

    open spec fn view(&self) -> PatternV {
        match self {
            Pattern::Binding(name) => PatternV::Binding(name@),
            Pattern::Path(p) => PatternV::Path(p@),
            Pattern::Wildcard => PatternV::Wildcard,
            Pattern::Other => PatternV::Other,
        }
    }
}

/// What one raw pattern classifies to: a bare binding becomes an identifier
/// key, a clean path becomes a path key, the wildcard becomes the wildcard
/// key, and every other shape is rejected.
pub open spec fn classify_spec(p: PatternV) -> Result<KeyView, ClassifyError> {
    match p {
        PatternV::Binding(name) => Ok(KeyView::Ident(name)),
        PatternV::Path(pm) => if path_ok(pm) {
            Ok(KeyView::Path(seg_names(pm.segments)))
        } else {
            Err(path_error(pm))
        },
        PatternV::Wildcard => Ok(KeyView::Wildcard),
        PatternV::Other => Err(ClassifyError::Unsupported),
    }
}

/// The key of a classifiable pattern.
pub open spec fn classify_key(p: PatternV) -> KeyView {
    classify_spec(p)->Ok_0
}

/// Classifies one raw pattern into a sortable key, or reports why it cannot
/// take part in sortedness checking.
pub fn classify(p: &Pattern) -> (r: Result<Sortable, ClassifyError>)
    ensures
        r matches Ok(k) ==> k.wf() && classify_spec(p@) == Ok::<KeyView, ClassifyError>(k@),
        r matches Err(e) ==> classify_spec(p@) == Err::<KeyView, ClassifyError>(e),
{
    match p {
        Pattern::Binding(name) => Ok(Sortable::Ident(name.clone())),
        Pattern::Path(pm) => match SimplifiedPath::try_from_model(pm) {
            Ok(sp) => Ok(Sortable::Path(sp)),
            Err(e) => Err(e),
        },
        Pattern::Wildcard => Ok(Sortable::Wildcard),
        Pattern::Other => Err(ClassifyError::Unsupported),
    }
}

// ---------------------------------------------------------------------------
// Per-match checking.
// ---------------------------------------------------------------------------

/// The views of a raw pattern sequence.
pub open spec fn pattern_views(arms: Seq<Pattern>) -> Seq<PatternV> {
    arms.map_values(|p: Pattern| p@)
}

/// Every arm classifies into a key.
pub open spec fn all_classify(arms: Seq<PatternV>) -> bool {
    forall|i: int| 0 <= i < arms.len() ==> classify_spec(#[trigger] arms[i]) is Ok
}

/// The keys of a fully classifiable arm sequence, in arm order.
pub open spec fn keys_of(arms: Seq<PatternV>) -> Seq<KeyView> {
    arms.map_values(|p: PatternV| classify_key(p))
}

/// How many leading arms classify; equals the length when all do, else the
/// index of the first arm that does not.
pub open spec fn ok_prefix_len(arms: Seq<PatternV>) -> int
    decreases arms.len(),
{
    if arms.len() == 0 {
        0
    } else if !(classify_spec(arms[0]) is Ok) {
        0
    } else {
        1 + ok_prefix_len(arms.skip(1))
    }
}

/// Pins `ok_prefix_len` down from a first-failure characterization.
pub proof fn lemma_ok_prefix_val(arms: Seq<PatternV>, i: int)
    requires
        0 <= i <= arms.len(),
        forall|k: int| 0 <= k < i ==> classify_spec(#[trigger] arms[k]) is Ok,
        i < arms.len() ==> !(classify_spec(arms[i]) is Ok),
    ensures
        ok_prefix_len(arms) == i,
    decreases arms.len(),
{
    if arms.len() == 0 {
    } else if !(classify_spec(arms[0]) is Ok) {
        assert(i == 0);
    } else {
        assert(i > 0);
        lemma_ok_prefix_val(arms.skip(1), i - 1);
    }
}

/// One match expression as the walker sees it: whether it carried the
/// marker, and its arm patterns in source order.
pub struct MatchModel {
    pub marked: bool,
    pub arms: Vec<Pattern>,
}

/// What checking one match expression produced.
pub enum MatchOutcome {
    /// The match carried no marker and was left untouched.
    Skipped,
    /// The arm at `arm` failed to classify; the order check was disabled
    /// for the whole match and only this error is reported.
    Unsupported { arm: usize, error: ClassifyError },
    /// Every arm classified; these are the detector's findings.
    Checked { violations: Vec<Violation> },
}

/// The full contract of checking one match: unmarked matches are skipped;
/// marked ones either fail on their first unclassifiable arm, or carry the
/// detector's findings over their keys.
pub open spec fn match_check_post(marked: bool, arms: Seq<PatternV>, o: MatchOutcome) -> bool {
    if !marked {
        o is Skipped
    } else if all_classify(arms) {
        o matches MatchOutcome::Checked { violations } && detector_post(
            keys_of(arms),
            violations@,
        )
    } else {
        o matches MatchOutcome::Unsupported { arm, error } && arm == ok_prefix_len(arms)
            && classify_spec(arms[arm as int]) == Err::<KeyView, ClassifyError>(error)
    }
}

/// Checks one match expression: consumes the marker (the returned model is
/// identical but unmarked) and produces the outcome for this match.
#[verifier::loop_isolation(false)]
pub fn check_match(m: MatchModel) -> (r: (MatchModel, MatchOutcome))
    ensures
        r.0.marked == false,
        r.0.arms@ == m.arms@,
        match_check_post(m.marked, pattern_views(m.arms@), r.1),
{
    let MatchModel { marked, arms } = m;
    if !marked {
        return (MatchModel { marked: false, arms }, MatchOutcome::Skipped);
    }
    let ghost pv = pattern_views(arms@);
    let n = arms.len();
    let mut keys: Vec<Sortable> = Vec::new();
    let mut i: usize = 0;
    while i < n
        invariant
            i <= n,
            keys@.len() == i,
            forall|k: int| 0 <= k < i ==> classify_spec(#[trigger] pv[k]) is Ok,
            forall|k: int| 0 <= k < i ==> (#[trigger] keys@[k]).wf(),
            forall|k: int| 0 <= k < i ==> (#[trigger] keys@[k])@ == classify_key(pv[k]),
        decreases n - i,
    {
        match classify(&arms[i]) {
            Ok(k) => {
                keys.push(k);
            },
            Err(e) => {
                proof {
                    lemma_ok_prefix_val(pv, i as int);
                    assert(!(classify_spec(pv[i as int]) is Ok));
                }
                return (
                    MatchModel { marked: false, arms },
                    MatchOutcome::Unsupported { arm: i, error: e },
                );
            },
        }
        i = i + 1;
    }
    proof {
        assert(keys_view(keys@) =~= keys_of(pv));
    }
    let violations = check_sorting(&keys);
    (MatchModel { marked: false, arms }, MatchOutcome::Checked { violations })
}

// ---------------------------------------------------------------------------
// The function-body entry point.
// ---------------------------------------------------------------------------

/// A syntax item as the walker sees it: an enum declaration with its variant
/// names, a function body with the match expressions found anywhere inside
/// it (in visit order), or some other item kind.
pub enum ItemModel {
    Enum { variants: Vec<String> },
    Function { matches: Vec<MatchModel> },
    Other,
}

/// An entry point was handed the wrong kind of item; the whole invocation
/// is aborted with this error alone.
#[derive(Clone, Copy, Debug, PartialEq, Eq, Structural)]
pub enum StructuralError {
    ExpectedEnum,
    ExpectedFunction,
}

impl StructuralError {
    /// The diagnostic text for this error.
    pub fn message(&self) -> (r: &'static str)
        ensures
            self is ExpectedEnum ==> r@ == "expected enum or match expression"@,
            self is ExpectedFunction ==> r@ == "expected function"@,
    {
        match self {
            StructuralError::ExpectedEnum => "expected enum or match expression",
            StructuralError::ExpectedFunction => "expected function",
        }
    }
}

/// The result of checking a whole function body: every match expression
/// with its marker stripped and arms untouched, and one outcome per match.
pub struct FunctionReport {
    pub matches: Vec<MatchModel>,
    pub outcomes: Vec<MatchOutcome>,
}

/// The report covers every match of the body, in order, each stripped of
/// its marker and checked independently under the per-match contract.
pub open spec fn function_report_ok(ms: Seq<MatchModel>, rep: FunctionReport) -> bool {
    &&& rep.matches@.len() == ms.len()
    &&& rep.outcomes@.len() == ms.len()
    &&& forall|k: int| 0 <= k < ms.len() ==> (#[trigger] rep.matches@[k]).marked == false
    &&& forall|k: int| 0 <= k < ms.len() ==> (#[trigger] rep.matches@[k]).arms@ == ms[k].arms@
    &&& forall|k: int|
        0 <= k < ms.len() ==> match_check_post(
            ms[k].marked,
            pattern_views(ms[k].arms@),
            #[trigger] rep.outcomes@[k],
        )
}

/// Checks every match expression found in a function body, independently
/// and in order; any other item kind is a structural hard error.
#[verifier::loop_isolation(false)]
pub fn execute(item: ItemModel) -> (r: Result<FunctionReport, StructuralError>)
    ensures
        item matches ItemModel::Function { matches } ==> (r matches Ok(rep)
            && function_report_ok(matches@, rep)),
        !(item is Function) ==> r == Err::<FunctionReport, StructuralError>(
            StructuralError::ExpectedFunction,
        ),
{
    match item {
        ItemModel::Function { matches } => {
            let ghost ms0 = matches@;
            let mut remaining = matches;
            let mut stripped: Vec<MatchModel> = Vec::new();
            let mut outcomes: Vec<MatchOutcome> = Vec::new();
            while remaining.len() > 0
                invariant
                    stripped@.len() == outcomes@.len(),
                    stripped@.len() + remaining@.len() == ms0.len(),
                    remaining@ =~= ms0.skip(stripped@.len() as int),
                    forall|k: int|
                        0 <= k < stripped@.len() ==> (#[trigger] stripped@[k]).marked == false,
                    forall|k: int|
                        0 <= k < stripped@.len() ==> (#[trigger] stripped@[k]).arms@
                            == ms0[k].arms@,
                    forall|k: int|
                        0 <= k < stripped@.len() ==> match_check_post(
                            ms0[k].marked,
                            pattern_views(ms0[k].arms@),
                            #[trigger] outcomes@[k],
                        ),
                decreases remaining@.len(),
            {
                let ghost k = stripped@.len() as int;
                proof {
                    assert(remaining@[0] == ms0[k]);
                }
                let m = remaining.remove(0);
                proof {
                    assert(remaining@ =~= ms0.skip(k + 1));
                }
                let (sm, o) = check_match(m);
                stripped.push(sm);
                outcomes.push(o);
            }
            Ok(FunctionReport { matches: stripped, outcomes })
        },
        _ => Err(StructuralError::ExpectedFunction),
    }
}

// ---------------------------------------------------------------------------
// Laws of the per-match check.
// ---------------------------------------------------------------------------

/// Idempotence: a marked match whose arms all classify and whose keys are
/// already in order yields no diagnostics, and a second run — the marker
/// now stripped — yields none either.
pub proof fn lemma_checker_idempotent(
    arms: Seq<PatternV>,
    first: MatchOutcome,
    second: MatchOutcome,
)
    requires
        all_classify(arms),
        sorted_keys(keys_of(arms)),
        match_check_post(true, arms, first),
        match_check_post(false, arms, second),
    ensures
        first matches MatchOutcome::Checked { violations } && violations@.len() == 0,
        second is Skipped,
{
    if let MatchOutcome::Checked { violations } = first {
        lemma_sorted_detector_empty(keys_of(arms), violations@);
    }
}

/// All-or-nothing: a marked match with any unclassifiable arm reports only
/// that classification error and no order violations, however badly the
/// remaining arms are out of order.
pub proof fn lemma_unclassifiable_disables_order_check(arms: Seq<PatternV>, o: MatchOutcome)
    requires
        !all_classify(arms),
        match_check_post(true, arms, o),
    ensures
        o matches MatchOutcome::Unsupported { arm, error } && classify_spec(arms[arm as int])
            == Err::<KeyView, ClassifyError>(error),
        !(o is Checked),
{
}

} // verus!
