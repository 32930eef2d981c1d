//! The enum-declaration entry point.
//!
//! An enum declaration's variant names always classify as identifier keys,
//! so the order check runs unconditionally; any other item kind handed to
//! this entry point is a structural hard error. The construct itself is
//! returned unchanged beside the findings.

use vstd::prelude::*;

use crate::check::ItemModel;
use crate::check::StructuralError;
use crate::check_sorting::check_sorting;
use crate::check_sorting::detector_post;
use crate::check_sorting::keys_view;
use crate::check_sorting::KeyView;
use crate::check_sorting::Sortable;
use crate::check_sorting::Violation;

verus! {

/// The identifier keys of an enum's variant names, in declaration order.
pub open spec fn ident_keys(variants: Seq<String>) -> Seq<KeyView> {
    variants.map_values(|v: String| KeyView::Ident(v@))
}

/// Checks the variant order of an enum declaration, returning the construct
/// unchanged beside the detector's findings; any other item kind is a
/// structural hard error.
#[verifier::loop_isolation(false)]
pub fn execute(item: ItemModel) -> (r: Result<(ItemModel, Vec<Violation>), StructuralError>)
    ensures
        item matches ItemModel::Enum { variants } ==> (r matches Ok(pair) && pair.0 == item
            && detector_post(ident_keys(variants@), pair.1@)),
        !(item is Enum) ==> r == Err::<(ItemModel, Vec<Violation>), StructuralError>(
            StructuralError::ExpectedEnum,
        ),
{
    match &item {
        ItemModel::Enum { variants } => {
            let n = variants.len();
            let mut keys: Vec<Sortable> = Vec::new();
            let mut i: usize = 0;
            while i < n
                invariant
                    i <= n,
                    keys@.len() == i,
                    forall|k: int| 0 <= k < i ==> (#[trigger] keys@[k]).wf(),
                    forall|k: int|
                        0 <= k < i ==> (#[trigger] keys@[k])@ == KeyView::Ident(variants@[k]@),
                decreases n - i,
            {
                keys.push(Sortable::Ident(variants[i].clone()));
                i = i + 1;
            }
            proof {
                assert(keys_view(keys@) =~= ident_keys(variants@));
            }
            let violations = check_sorting(&keys);
            Ok((item, violations))
        },
        _ => Err(StructuralError::ExpectedEnum),
    }
}

} // verus!
