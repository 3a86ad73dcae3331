use vstd::prelude::*;

verus! {

/// A named, coloured bucket that tasks may point at.
#[derive(Debug, Clone)]
pub struct Category {
    pub id: i64,
    pub name: String,
    pub color: String,
    pub created_at: i64,
    pub updated_at: i64,
}

/// What a caller supplies to create a category.
#[derive(Debug)]
pub struct CreateCategoryInput {
    pub name: String,
    pub color: String,
}

/// A partial patch of a category: absent fields are left as they are.
#[derive(Debug)]
pub struct UpdateCategoryInput {
    pub name: Option<String>,
    pub color: Option<String>,
}

} // verus!
