use vstd::prelude::*;
use crate::models::category::CreateCategoryInput;

verus! {

/// The names and colours of the categories that a fresh store starts with.
pub open spec fn default_category_list() -> Seq<(Seq<char>, Seq<char>)> {
    seq![
        ("Personal"@, "#9ece6a"@),
        ("Tech Guild"@, "#7aa2f7"@),
        ("Work"@, "#e0af68"@),
        ("Other"@, "#414868"@),
    ]
}

/// The name and colour that `input` asks for.
pub open spec fn named(input: CreateCategoryInput) -> (Seq<char>, Seq<char>) {
    (input.name@, input.color@)
}

/// Whether a store with `existing` categories is to be seeded: only a store
/// without any.
pub fn needs_default_categories(existing: i64) -> (seed: bool)
    ensures
        seed == (existing == 0),
{
    existing == 0
}

/// The categories that a fresh store starts with.
pub fn default_categories() -> (defaults: Vec<CreateCategoryInput>)
    ensures
        defaults@.len() == default_category_list().len(),
        forall|i: int|
            0 <= i < defaults@.len() ==> named(#[trigger] defaults@[i]) == default_category_list()[i],
{
    let mut defaults: Vec<CreateCategoryInput> = Vec::new();
    defaults.push(
        CreateCategoryInput { name: "Personal".to_string(), color: "#9ece6a".to_string() },
    );
    defaults.push(
        CreateCategoryInput { name: "Tech Guild".to_string(), color: "#7aa2f7".to_string() },
    );
    defaults.push(CreateCategoryInput { name: "Work".to_string(), color: "#e0af68".to_string() });
    defaults.push(CreateCategoryInput { name: "Other".to_string(), color: "#414868".to_string() });
    defaults
}

} // verus!
