use vstd::prelude::*;

verus! {

/// An SQL statement under construction for the embedded store: its text, and
/// the values bound to the placeholders in it. The builder is open to the
/// caller that runs the statement. This library starts every builder itself
/// and never builds one, so text and values can always be appended to the
/// builders it works on.
#[verifier::external_body]
pub struct SqlQuery {
    pub builder: sqlx::QueryBuilder<'static, sqlx::Sqlite>,
}

/// A value bound to a placeholder, as the embedded store receives it.
pub enum BoundValue {
    Null,
    Int(i32),
    Int64(i64),
    Text(Seq<char>),
}

/// The SQL text that a query has gathered so far.
pub uninterp spec fn sql_text(q: SqlQuery) -> Seq<char>;

/// The values that a query has bound so far, in the order of their
/// placeholders.
pub uninterp spec fn bound_values(q: SqlQuery) -> Seq<BoundValue>;

/// What stands in the text for a bound value.
pub open spec fn placeholder() -> Seq<char> {
    "?"@
}

/// A number that may be absent, as it is bound: null where it is absent.
pub open spec fn bound_or_null(value: Option<i64>) -> BoundValue {
    match value {
        Some(v) => BoundValue::Int64(v),
        None => BoundValue::Null,
    }
}

/// `sqlx::QueryBuilder::new`: a builder whose text is `init` and which has
/// bound nothing yet.
#[verifier::external_body]
pub(crate) fn start_query(init: &str) -> (q: SqlQuery)
    ensures
        sql_text(q) == init@,
        bound_values(q) == Seq::<BoundValue>::empty(),
{
    SqlQuery { builder: sqlx::QueryBuilder::new(init) }
}

/// `sqlx::QueryBuilder::push`: appends `sql` to the text and binds nothing.
#[verifier::external_body]
pub(crate) fn push_sql(q: &mut SqlQuery, sql: &str)
    ensures
        sql_text(*final(q)) == sql_text(*old(q)) + sql@,
        bound_values(*final(q)) == bound_values(*old(q)),
{
    q.builder.push(sql);
}

/// `sqlx::QueryBuilder::push_bind` with an `i64`: appends a placeholder to
/// the text and binds the value as a 64-bit integer.
#[verifier::external_body]
pub(crate) fn bind_i64(q: &mut SqlQuery, value: i64)
    ensures
        sql_text(*final(q)) == sql_text(*old(q)) + placeholder(),
        bound_values(*final(q)) == bound_values(*old(q)).push(BoundValue::Int64(value)),
{
    q.builder.push_bind(value);
}

/// `sqlx::QueryBuilder::push_bind` with an `i32`: appends a placeholder to
/// the text and binds the value as a 32-bit integer.
#[verifier::external_body]
pub(crate) fn bind_i32(q: &mut SqlQuery, value: i32)
    ensures
        sql_text(*final(q)) == sql_text(*old(q)) + placeholder(),
        bound_values(*final(q)) == bound_values(*old(q)).push(BoundValue::Int(value)),
{
    q.builder.push_bind(value);
}

/// `sqlx::QueryBuilder::push_bind` with a `bool`: appends a placeholder to
/// the text and binds 1 for `true`, 0 for `false`, as a 32-bit integer.
#[verifier::external_body]
pub(crate) fn bind_bool(q: &mut SqlQuery, value: bool)
    ensures
        sql_text(*final(q)) == sql_text(*old(q)) + placeholder(),
        bound_values(*final(q)) == bound_values(*old(q)).push(
            BoundValue::Int(
                if value {
                    1i32
                } else {
                    0i32
                },
            ),
        ),
{
    q.builder.push_bind(value);
}

/// `sqlx::QueryBuilder::push_bind` with a `String`: appends a placeholder to
/// the text and binds the string as text.
#[verifier::external_body]
pub(crate) fn bind_text(q: &mut SqlQuery, value: String)
    ensures
        sql_text(*final(q)) == sql_text(*old(q)) + placeholder(),
        bound_values(*final(q)) == bound_values(*old(q)).push(BoundValue::Text(value@)),
{
    q.builder.push_bind(value);
}

/// `sqlx::QueryBuilder::push_bind` with an `Option<i64>`: appends a
/// placeholder to the text and binds the value as a 64-bit integer, or null
/// where there is none.
#[verifier::external_body]
pub(crate) fn bind_opt_i64(q: &mut SqlQuery, value: Option<i64>)
    ensures
        sql_text(*final(q)) == sql_text(*old(q)) + placeholder(),
        bound_values(*final(q)) == bound_values(*old(q)).push(
            bound_or_null(value),
        ),
{
    q.builder.push_bind(value);
}

/// `sqlx::QueryBuilder::push_bind` with an `Option<String>`: appends a
/// placeholder to the text and binds the string as text, or null where there
/// is none.
#[verifier::external_body]
pub(crate) fn bind_opt_text(q: &mut SqlQuery, value: Option<String>)
    ensures
        sql_text(*final(q)) == sql_text(*old(q)) + placeholder(),
        bound_values(*final(q)) == bound_values(*old(q)).push(
            match value {
                Some(v) => BoundValue::Text(v@),
                None => BoundValue::Null,
            },
        ),
{
    q.builder.push_bind(value);
}

/// The text `column` followed by a placeholder where `supplied` holds,
/// nothing otherwise.
pub open spec fn set_if(supplied: bool, column: Seq<char>) -> Seq<char> {
    if supplied {
        column + placeholder()
    } else {
        Seq::empty()
    }
}

/// The one value `value` where it is there, no value otherwise.
pub open spec fn bind_if(value: Option<BoundValue>) -> Seq<BoundValue> {
    match value {
        Some(v) => seq![v],
        None => Seq::empty(),
    }
}

/// Appends `column` and a placeholder, and binds `value` as text, where there
/// is a value.
pub(crate) fn set_text(q: &mut SqlQuery, column: &str, value: Option<String>)
    ensures
        sql_text(*final(q)) == sql_text(*old(q)) + set_if(value is Some, column@),
        bound_values(*final(q)) == bound_values(*old(q)) + bind_if(
            match value {
                Some(v) => Some(BoundValue::Text(v@)),
                None => None,
            },
        ),
{
    let ghost sql = sql_text(*q);
    let ghost binds = bound_values(*q);
    match value {
        Some(v) => {
            push_sql(q, column);
            bind_text(q, v);
            proof {
                assert(sql_text(*q) =~= sql + (column@ + placeholder()));
                assert(bound_values(*q) =~= binds + seq![BoundValue::Text(v@)]);
            }
        },
        None => {
            proof {
                assert(sql_text(*q) =~= sql + Seq::<char>::empty());
                assert(bound_values(*q) =~= binds + Seq::<BoundValue>::empty());
            }
        },
    }
}

/// Appends `column` and a placeholder, and binds `value` as a 64-bit
/// integer, where there is a value.
pub(crate) fn set_i64(q: &mut SqlQuery, column: &str, value: Option<i64>)
    ensures
        sql_text(*final(q)) == sql_text(*old(q)) + set_if(value is Some, column@),
        bound_values(*final(q)) == bound_values(*old(q)) + bind_if(
            match value {
                Some(v) => Some(BoundValue::Int64(v)),
                None => None,
            },
        ),
{
    let ghost sql = sql_text(*q);
    let ghost binds = bound_values(*q);
    match value {
        Some(v) => {
            push_sql(q, column);
            bind_i64(q, v);
            proof {
                assert(sql_text(*q) =~= sql + (column@ + placeholder()));
                assert(bound_values(*q) =~= binds + seq![BoundValue::Int64(v)]);
            }
        },
        None => {
            proof {
                assert(sql_text(*q) =~= sql + Seq::<char>::empty());
                assert(bound_values(*q) =~= binds + Seq::<BoundValue>::empty());
            }
        },
    }
}

/// Appends `column` and a placeholder, and binds `value` as a 32-bit
/// integer, where there is a value.
pub(crate) fn set_i32(q: &mut SqlQuery, column: &str, value: Option<i32>)
    ensures
        sql_text(*final(q)) == sql_text(*old(q)) + set_if(value is Some, column@),
        bound_values(*final(q)) == bound_values(*old(q)) + bind_if(
            match value {
                Some(v) => Some(BoundValue::Int(v)),
                None => None,
            },
        ),
{
    let ghost sql = sql_text(*q);
    let ghost binds = bound_values(*q);
    match value {
        Some(v) => {
            push_sql(q, column);
            bind_i32(q, v);
            proof {
                assert(sql_text(*q) =~= sql + (column@ + placeholder()));
                assert(bound_values(*q) =~= binds + seq![BoundValue::Int(v)]);
            }
        },
        None => {
            proof {
                assert(sql_text(*q) =~= sql + Seq::<char>::empty());
                assert(bound_values(*q) =~= binds + Seq::<BoundValue>::empty());
            }
        },
    }
}

} // verus!
