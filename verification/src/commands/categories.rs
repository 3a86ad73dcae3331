use vstd::prelude::*;
use crate::models::category::{Category, CreateCategoryInput, UpdateCategoryInput};
use crate::query::{
    bind_i64, bind_if, bind_text, bound_values, placeholder, push_sql, set_if, set_text,
    sql_text, start_query, BoundValue, SqlQuery,
};

verus! {

/// Some category of `cats` carries the id `id`.
pub open spec fn has_category(cats: Seq<Category>, id: i64) -> bool {
    exists|i: int| 0 <= i < cats.len() && (#[trigger] cats[i]).id == id
}

/// Whether some category of `categories` carries the id `id`.
pub fn category_exists(categories: &Vec<Category>, id: i64) -> (found: bool)
    ensures
        found == has_category(categories@, id),
{
    let n = categories.len();
    let mut i: usize = 0;
    while i < n
        invariant
            n == categories@.len(),
            0 <= i <= n,
            forall|j: int| 0 <= j < i ==> (#[trigger] categories@[j]).id != id,
        decreases n - i,
    {
        if categories[i].id == id {
            return true;
        }
        i += 1;
    }
    false
}

/// Makes the category that `input` asks for, with the id `id`, at the time
/// `now`.
pub fn new_category(id: i64, input: CreateCategoryInput, now: i64) -> (c: Category)
    ensures
        c.id == id,
        c.name == input.name,
        c.color == input.color,
        c.created_at == now,
        c.updated_at == now,
{
    Category { id, name: input.name, color: input.color, created_at: now, updated_at: now }
}

/// The text of the statement that stores a new category and hands the stored
/// row back. The store gives the row its id.
pub open spec fn insert_category_sql() -> Seq<char> {
    "INSERT INTO categories (name, color, created_at, updated_at) VALUES ("@ + placeholder()
        + ", "@ + placeholder() + ", "@ + placeholder() + ", "@ + placeholder()
        + ") RETURNING *"@
}

/// Builds the statement that stores the category that `input` asks for, made
/// at the time `now`. Every value travels as a bound value, none in the text.
pub fn insert_category_query(input: CreateCategoryInput, now: i64) -> (q: SqlQuery)
    ensures
        sql_text(q) == insert_category_sql(),
        bound_values(q) == seq![
            BoundValue::Text(input.name@),
            BoundValue::Text(input.color@),
            BoundValue::Int64(now),
            BoundValue::Int64(now),
        ],
{
    let mut q = start_query("INSERT INTO categories (name, color, created_at, updated_at) VALUES (");
    bind_text(&mut q, input.name);
    push_sql(&mut q, ", ");
    bind_text(&mut q, input.color);
    push_sql(&mut q, ", ");
    bind_i64(&mut q, now);
    push_sql(&mut q, ", ");
    bind_i64(&mut q, now);
    push_sql(&mut q, ") RETURNING *");
    proof {
        assert(bound_values(q) =~= seq![
            BoundValue::Text(input.name@),
            BoundValue::Text(input.color@),
            BoundValue::Int64(now),
            BoundValue::Int64(now),
        ]);
    }
    q
}

/// `after` is `before` patched by `input` at the time `now`: the name and the
/// colour are replaced where `input` supplies them; the time of the update is
/// `now`.
pub open spec fn is_patched_category(
    after: Category,
    before: Category,
    input: UpdateCategoryInput,
    now: i64,
) -> bool {
    &&& after.id == before.id
    &&& match input.name {
        Some(name) => after.name == name,
        None => after.name == before.name,
    }
    &&& match input.color {
        Some(color) => after.color == color,
        None => after.color == before.color,
    }
    &&& after.created_at == before.created_at
    &&& after.updated_at == now
}

/// Patches `category` by `input` at the time `now`.
pub fn apply_category_update(category: Category, input: UpdateCategoryInput, now: i64) -> (after:
    Category)
    ensures
        is_patched_category(after, category, input, now),
{
    Category {
        id: category.id,
        name: match input.name {
            Some(name) => name,
            None => category.name,
        },
        color: match input.color {
            Some(color) => color,
            None => category.color,
        },
        created_at: category.created_at,
        updated_at: now,
    }
}

/// The text of the statement that patches a category by `input`: the time of
/// the update is always set, the name and the colour only where `input`
/// supplies them.
pub open spec fn category_update_sql(input: UpdateCategoryInput) -> Seq<char> {
    "UPDATE categories SET updated_at = "@ + placeholder() + set_if(
        input.name is Some,
        ", name = "@,
    ) + set_if(input.color is Some, ", color = "@) + " WHERE id = "@ + placeholder()
        + " RETURNING *"@
}

/// The values bound by `category_update_sql`, in the order of their
/// placeholders.
pub open spec fn category_update_binds(id: i64, input: UpdateCategoryInput, now: i64) -> Seq<
    BoundValue,
> {
    seq![BoundValue::Int64(now)] + bind_if(
        match input.name {
            Some(v) => Some(BoundValue::Text(v@)),
            None => None,
        },
    ) + bind_if(
        match input.color {
            Some(v) => Some(BoundValue::Text(v@)),
            None => None,
        },
    ) + seq![BoundValue::Int64(id)]
}

/// Builds the statement that patches the category with id `id` by `input` at
/// the time `now` and hands the patched row back. Every value travels as a
/// bound value, none in the text.
pub fn update_category_query(id: i64, input: UpdateCategoryInput, now: i64) -> (q: SqlQuery)
    ensures
        sql_text(q) == category_update_sql(input),
        bound_values(q) == category_update_binds(id, input, now),
{
    let mut q = start_query("UPDATE categories SET updated_at = ");
    bind_i64(&mut q, now);
    proof {
        assert(bound_values(q) =~= seq![BoundValue::Int64(now)]);
    }
    set_text(&mut q, ", name = ", input.name);
    set_text(&mut q, ", color = ", input.color);
    push_sql(&mut q, " WHERE id = ");
    bind_i64(&mut q, id);
    push_sql(&mut q, " RETURNING *");
    proof {
        assert(bound_values(q) =~= category_update_binds(id, input, now));
    }
    q
}

} // verus!
