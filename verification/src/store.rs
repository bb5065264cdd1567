//! Catalog records and the shaping of what the database returns.
use vstd::prelude::*;
use vstd::string::StringExecFns;
use crate::search::{compact_field, normalized_search_text, search_terms};
use crate::scoring::{rank_items, MAX_SCORED_TERMS};
use crate::text::{self, trimmed};

verus! {

/// A catalog item as listed by a search.
#[derive(Debug, Clone, PartialEq, Eq)]
pub struct Item {
    pub name: String,
    pub item_code: String,
    pub item_name: String,
}

/// The details of one catalog item.
#[derive(Debug, Clone, PartialEq, Eq)]
pub struct ItemDetail {
    pub name: String,
    pub item_code: String,
    pub item_name: String,
    pub stock_uom: String,
}

/// A warehouse and the company that owns it.
#[derive(Debug, Clone, PartialEq, Eq)]
pub struct Warehouse {
    pub name: String,
    pub company: String,
}

/// `item` with its fields trimmed and an empty item name replaced by the item code.
pub open spec fn normalized_item(name: Seq<char>, code: Seq<char>, item_name: Seq<char>) -> (
    Seq<char>,
    Seq<char>,
    Seq<char>,
) {
    let n = text::trim_seq(item_name);
    (text::trim_seq(name), text::trim_seq(code), if n.len() == 0 {
        text::trim_seq(code)
    } else {
        n
    })
}

/// Whether `after` is `before` with its fields trimmed and an empty item
/// name replaced by the item code.
pub open spec fn is_normalized_item(before: Item, after: Item) -> bool {
    (after.name@, after.item_code@, after.item_name@) == normalized_item(
        before.name@,
        before.item_code@,
        before.item_name@,
    )
}

/// Trims every field of every item; an item without a name takes its code as name.
pub fn normalize_items(items: &mut [Item])
    ensures
        final(items)@.len() == old(items)@.len(),
        forall|i: int|
            0 <= i < old(items)@.len() ==> is_normalized_item(
                #[trigger] old(items)@[i],
                final(items)@[i],
            ),
{
    let n = items.len();
    let mut i: usize = 0;
    while i < n
        invariant
            n == items@.len(),
            n == old(items)@.len(),
            i <= n,
            forall|k: int| 0 <= k < i ==> is_normalized_item(#[trigger] old(items)@[k], items@[k]),
            forall|k: int| i <= k < n ==> #[trigger] items@[k] == old(items)@[k],
        decreases n - i,
    {
        let name = trimmed(items[i].name.as_str());
        let item_code = trimmed(items[i].item_code.as_str());
        let mut item_name = trimmed(items[i].item_name.as_str());
        if item_name.as_str().is_empty() {
            item_name = item_code.clone();
        }
        items[i] = Item { name, item_code, item_name };
        i = i + 1;
    }
}

/// Trims every field of an item's details.
pub fn trim_item_detail(item: &mut ItemDetail)
    ensures
        final(item).name@ == text::trim_seq(old(item).name@),
        final(item).item_code@ == text::trim_seq(old(item).item_code@),
        final(item).item_name@ == text::trim_seq(old(item).item_name@),
        final(item).stock_uom@ == text::trim_seq(old(item).stock_uom@),
{
    item.name = trimmed(item.name.as_str());
    item.item_code = trimmed(item.item_code.as_str());
    item.item_name = trimmed(item.item_name.as_str());
    item.stock_uom = trimmed(item.stock_uom.as_str());
}

/// The number of rows to fetch: 20 when none (or a non-positive number) is
/// asked for, at most 50.
pub fn normalize_limit(limit: i64) -> (r: i64)
    ensures
        r == if limit <= 0 {
            20
        } else if limit > 50 {
            50
        } else {
            limit
        },
{
    if limit <= 0 {
        20
    } else if limit > 50 {
        50
    } else {
        limit
    }
}

} // verus!

verus! {

/// The selection that item searches start from.
pub const SEARCH_ITEMS_SELECT: &'static str = r#"
SELECT
    name,
    COALESCE(NULLIF(item_code, ''), name) AS item_code,
    COALESCE(NULLIF(item_name, ''), NULLIF(item_code, ''), name) AS item_name
FROM tabItem
"#;

/// Restricts an item search to items whose default warehouse is the bound one.
pub const SEARCH_ITEMS_WAREHOUSE_FILTER: &'static str = r#"
WHERE EXISTS (
    SELECT 1
    FROM `tabItem Default` item_default
    WHERE item_default.parent = tabItem.name
        AND item_default.default_warehouse = ?
)
"#;

/// Matches one search term (three bound patterns) and its compact form (three more).
pub const SEARCH_ITEMS_TERM_FILTER: &'static str = r#"(
        LOWER(COALESCE(NULLIF(tabItem.item_code, ''), tabItem.name)) LIKE ?
        OR LOWER(COALESCE(NULLIF(tabItem.item_name, ''), COALESCE(NULLIF(tabItem.item_code, ''), tabItem.name))) LIKE ?
        OR LOWER(tabItem.name) LIKE ?
        OR REPLACE(REPLACE(REPLACE(LOWER(COALESCE(NULLIF(tabItem.item_code, ''), tabItem.name)), ' ', ''), '-', ''), '_', '') LIKE ?
        OR REPLACE(REPLACE(REPLACE(LOWER(COALESCE(NULLIF(tabItem.item_name, ''), COALESCE(NULLIF(tabItem.item_code, ''), tabItem.name))), ' ', ''), '-', ''), '_', '') LIKE ?
        OR REPLACE(REPLACE(REPLACE(LOWER(tabItem.name), ' ', ''), '-', ''), '_', '') LIKE ?
    )"#;

/// Looks up one item by code or name.
pub const GET_ITEM_SQL: &'static str = r#"
SELECT
    name,
    COALESCE(NULLIF(item_code, ''), name) AS item_code,
    COALESCE(NULLIF(item_name, ''), NULLIF(item_code, ''), name) AS item_name,
    COALESCE(NULLIF(stock_uom, ''), '') AS stock_uom
FROM tabItem
WHERE item_code = ? OR name = ?
LIMIT 1
"#;

/// Lists the warehouses holding an item or configured as its default.
pub const ITEM_WAREHOUSES_SELECT: &'static str = r#"
SELECT warehouse, CAST(MAX(actual_qty) AS DOUBLE) AS actual_qty
FROM (
    SELECT warehouse, CAST(actual_qty AS DOUBLE) AS actual_qty
    FROM tabBin
    WHERE item_code = ? AND actual_qty > 0

    UNION ALL

    SELECT DISTINCT
        item_default.default_warehouse AS warehouse,
        CAST(0 AS DOUBLE) AS actual_qty
    FROM tabItem
    INNER JOIN `tabItem Default` item_default
        ON item_default.parent = tabItem.name
    WHERE (tabItem.item_code = ? OR tabItem.name = ?)
        AND COALESCE(NULLIF(item_default.default_warehouse, ''), '') <> ''
) warehouse_options
WHERE 1 = 1
"#;

/// Groups, orders and limits the warehouse listing of an item.
pub const ITEM_WAREHOUSES_TAIL: &'static str = r#"
GROUP BY warehouse
ORDER BY actual_qty DESC, warehouse ASC
LIMIT ?
"#;

/// Looks up one warehouse by name.
pub const GET_WAREHOUSE_SQL: &'static str = r#"
SELECT
    name,
    COALESCE(NULLIF(company, ''), '') AS company
FROM tabWarehouse
WHERE name = ?
LIMIT 1
"#;

/// Opens the term filters of a search already restricted by warehouse.
pub const AND_OPEN: &'static str = "\nAND (\n";

/// Opens the term filters of an unrestricted search.
pub const WHERE_OPEN: &'static str = "\nWHERE (\n";

/// Separates two term filters.
pub const OR_SEPARATOR: &'static str = "\n    OR\n";

/// Closes the term filters.
pub const FILTERS_CLOSE: &'static str = "\n)\n";

/// Orders search results, most recently modified first.
pub const ORDER_BY_MODIFIED: &'static str = "\nORDER BY modified DESC\n";

/// Limits the number of rows.
pub const LIMIT_CLAUSE: &'static str = "LIMIT ?\n";

/// Restricts the warehouse listing to names matching the bound pattern.
pub const WAREHOUSE_LIKE: &'static str = "AND warehouse LIKE ?\n";

} // verus!

verus! {

/// A value bound to a `?` placeholder of a query.
#[derive(Debug, Clone, PartialEq, Eq)]
pub enum SqlArg {
    String(String),
    I64(i64),
}

/// What a bound value holds.
pub enum SqlArgValue {
    Text(Seq<char>),
    Int(i64),
}

impl View for SqlArg {
    type V = SqlArgValue;

    open spec fn view(&self) -> SqlArgValue {
        match self {
            SqlArg::String(s) => SqlArgValue::Text(s@),
            SqlArg::I64(v) => SqlArgValue::Int(*v),
        }
    }
}

/// The views of a list of bound values.
pub open spec fn args_of(args: Seq<SqlArg>) -> Seq<SqlArgValue> {
    args.map_values(|a: SqlArg| a@)
}

/// The `LIKE` pattern matching any text that contains `s`.
pub open spec fn like_pattern(s: Seq<char>) -> Seq<char> {
    seq!['%'] + s + seq!['%']
}

/// The term filters, one per term whose normal and compact forms are both
/// non-empty, joined by `OR`, with their bound patterns.
pub open spec fn term_filters(
    sql: Seq<char>,
    args: Seq<SqlArgValue>,
    added: bool,
    terms: Seq<Seq<char>>,
) -> (Seq<char>, Seq<SqlArgValue>)
    decreases terms.len(),
{
    if terms.len() == 0 {
        (sql, args)
    } else {
        let t = crate::search::normalized(terms[0]);
        let c = crate::search::compacted(t);
        if t.len() == 0 || c.len() == 0 {
            term_filters(sql, args, added, terms.drop_first())
        } else {
            let sql2 = (if added {
                sql + OR_SEPARATOR@
            } else {
                sql
            }) + SEARCH_ITEMS_TERM_FILTER@;
            let pt = SqlArgValue::Text(like_pattern(t));
            let pc = SqlArgValue::Text(like_pattern(c));
            let args2 = args + seq![pt, pt, pt, pc, pc, pc];
            term_filters(sql2, args2, true, terms.drop_first())
        }
    }
}

/// The item search query for the given search terms, limit and warehouse,
/// with its bound values.
pub open spec fn search_items_query(terms: Seq<Seq<char>>, limit: i64, warehouse: Seq<char>) -> (
    Seq<char>,
    Seq<SqlArgValue>,
) {
    let w = text::trim_seq(warehouse);
    let s1 = if w.len() > 0 {
        SEARCH_ITEMS_SELECT@ + SEARCH_ITEMS_WAREHOUSE_FILTER@
    } else {
        SEARCH_ITEMS_SELECT@
    };
    let a1 = if w.len() > 0 {
        seq![SqlArgValue::Text(w)]
    } else {
        seq![]
    };
    let (s2, a2) = if terms.len() > 0 {
        let open = if w.len() > 0 {
            AND_OPEN@
        } else {
            WHERE_OPEN@
        };
        let (s, a) = term_filters(s1 + open, a1, false, terms);
        (s + FILTERS_CLOSE@, a)
    } else {
        (s1, a1)
    };
    let s3 = s2 + ORDER_BY_MODIFIED@;
    if limit > 0 {
        (s3 + LIMIT_CLAUSE@, a2.push(SqlArgValue::Int(limit)))
    } else {
        (s3, a2)
    }
}

proof fn lemma_term_filters_extend(
    sql: Seq<char>,
    args: Seq<SqlArgValue>,
    added: bool,
    terms: Seq<Seq<char>>,
)
    ensures
        sql.is_prefix_of(term_filters(sql, args, added, terms).0),
        args.is_prefix_of(term_filters(sql, args, added, terms).1),
    decreases terms.len(),
{
    if terms.len() > 0 {
        let t = crate::search::normalized(terms[0]);
        let c = crate::search::compacted(t);
        if t.len() == 0 || c.len() == 0 {
            lemma_term_filters_extend(sql, args, added, terms.drop_first());
        } else {
            let sql2 = (if added {
                sql + OR_SEPARATOR@
            } else {
                sql
            }) + SEARCH_ITEMS_TERM_FILTER@;
            let pt = SqlArgValue::Text(like_pattern(t));
            let pc = SqlArgValue::Text(like_pattern(c));
            let args2 = args + seq![pt, pt, pt, pc, pc, pc];
            lemma_term_filters_extend(sql2, args2, true, terms.drop_first());
            assert(sql.is_prefix_of(sql2));
            assert(args.is_prefix_of(args2));
        }
    }
}

/// A warehouse that is not blank always restricts the item search, whatever
/// the search terms (none included) and the limit: the query opens with the
/// warehouse filter and the trimmed warehouse is the first value bound. A
/// blank warehouse adds no filter: the query then opens with the bare select
/// followed by the term filters or the ordering.
pub proof fn lemma_warehouse_always_filters(terms: Seq<Seq<char>>, limit: i64, warehouse: Seq<char>)
    ensures
        ({
            let w = text::trim_seq(warehouse);
            let (sql, args) = search_items_query(terms, limit, warehouse);
            w.len() > 0 ==> {
                &&& (SEARCH_ITEMS_SELECT@ + SEARCH_ITEMS_WAREHOUSE_FILTER@).is_prefix_of(sql)
                &&& args.len() > 0
                &&& args[0] == SqlArgValue::Text(w)
            }
        }),
        ({
            let w = text::trim_seq(warehouse);
            let (sql, args) = search_items_query(terms, limit, warehouse);
            w.len() == 0 ==> {
                &&& SEARCH_ITEMS_SELECT@.is_prefix_of(sql)
                &&& (terms.len() == 0 ==> (SEARCH_ITEMS_SELECT@ + ORDER_BY_MODIFIED@).is_prefix_of(
                    sql,
                ))
                &&& (terms.len() > 0 ==> (SEARCH_ITEMS_SELECT@ + WHERE_OPEN@).is_prefix_of(sql))
            }
        }),
{
    let w = text::trim_seq(warehouse);
    let head = if w.len() > 0 {
        SEARCH_ITEMS_SELECT@ + SEARCH_ITEMS_WAREHOUSE_FILTER@
    } else {
        SEARCH_ITEMS_SELECT@
    };
    let bound: Seq<SqlArgValue> = if w.len() > 0 {
        seq![SqlArgValue::Text(w)]
    } else {
        seq![]
    };
    let open = if w.len() > 0 {
        AND_OPEN@
    } else {
        WHERE_OPEN@
    };
    let (s2, a2) = if terms.len() > 0 {
        let (s, a) = term_filters(head + open, bound, false, terms);
        (s + FILTERS_CLOSE@, a)
    } else {
        (head, bound)
    };
    if terms.len() > 0 {
        lemma_term_filters_extend(head + open, bound, false, terms);
        let (s, a) = term_filters(head + open, bound, false, terms);
        lemma_prefix_append(head, open);
        lemma_prefix_append(s, FILTERS_CLOSE@);
        lemma_prefix_trans(head, head + open, s);
        lemma_prefix_trans(head, s, s2);
        if w.len() == 0 {
            lemma_prefix_trans(head + open, s, s2);
        }
    }
    let s3 = s2 + ORDER_BY_MODIFIED@;
    lemma_prefix_append(s2, ORDER_BY_MODIFIED@);
    lemma_prefix_trans(head, s2, s3);
    lemma_prefix_append(s3, LIMIT_CLAUSE@);
    lemma_prefix_trans(head, s3, s3 + LIMIT_CLAUSE@);
    if w.len() == 0 {
        lemma_prefix_append(SEARCH_ITEMS_SELECT@, SEARCH_ITEMS_WAREHOUSE_FILTER@);
        if terms.len() > 0 {
            lemma_prefix_trans(head + open, s2, s3);
            lemma_prefix_trans(head + open, s3, s3 + LIMIT_CLAUSE@);
        } else {
            lemma_prefix_trans(s3, s3, s3 + LIMIT_CLAUSE@);
        }
    }
    if w.len() > 0 {
        assert(bound.is_prefix_of(a2));
        assert(a2.subrange(0, 1)[0] == a2[0]);
        assert(bound[0] == SqlArgValue::Text(w));
        assert(a2[0] == SqlArgValue::Text(w));
        assert(a2.push(SqlArgValue::Int(limit))[0] == SqlArgValue::Text(w));
    }
}

proof fn lemma_term_filters_bind(
    sql: Seq<char>,
    args: Seq<SqlArgValue>,
    added: bool,
    terms: Seq<Seq<char>>,
    k: int,
)
    requires
        0 <= k < terms.len(),
        crate::search::normalized(terms[k]).len() > 0,
        crate::search::compacted(crate::search::normalized(terms[k])).len() > 0,
    ensures
        term_filters(sql, args, added, terms).1.contains(
            SqlArgValue::Text(like_pattern(crate::search::normalized(terms[k]))),
        ),
        term_filters(sql, args, added, terms).1.contains(
            SqlArgValue::Text(
                like_pattern(crate::search::compacted(crate::search::normalized(terms[k]))),
            ),
        ),
    decreases terms.len(),
{
    let t = crate::search::normalized(terms[0]);
    let c = crate::search::compacted(t);
    let rest = terms.drop_first();
    if t.len() == 0 || c.len() == 0 {
        assert(rest[k - 1] == terms[k]);
        lemma_term_filters_bind(sql, args, added, rest, k - 1);
    } else {
        let sql2 = (if added {
            sql + OR_SEPARATOR@
        } else {
            sql
        }) + SEARCH_ITEMS_TERM_FILTER@;
        let pt = SqlArgValue::Text(like_pattern(t));
        let pc = SqlArgValue::Text(like_pattern(c));
        let args2 = args + seq![pt, pt, pt, pc, pc, pc];
        if k == 0 {
            lemma_term_filters_extend(sql2, args2, true, rest);
            let r = term_filters(sql2, args2, true, rest).1;
            assert(args2[args.len() as int] == pt);
            assert(args2[args.len() + 3int] == pc);
            assert(r[args.len() as int] == pt);
            assert(r[args.len() + 3int] == pc);
        } else {
            assert(rest[k - 1] == terms[k]);
            lemma_term_filters_bind(sql2, args2, true, rest, k - 1);
        }
    }
}

/// Every search term whose normal and compact forms are not empty is
/// searched for: the patterns of both forms are among the bound values.
pub proof fn lemma_search_binds_terms(terms: Seq<Seq<char>>, limit: i64, warehouse: Seq<char>, k: int)
    requires
        0 <= k < terms.len(),
        crate::search::normalized(terms[k]).len() > 0,
        crate::search::compacted(crate::search::normalized(terms[k])).len() > 0,
    ensures
        search_items_query(terms, limit, warehouse).1.contains(
            SqlArgValue::Text(like_pattern(crate::search::normalized(terms[k]))),
        ),
        search_items_query(terms, limit, warehouse).1.contains(
            SqlArgValue::Text(
                like_pattern(crate::search::compacted(crate::search::normalized(terms[k]))),
            ),
        ),
{
    let w = text::trim_seq(warehouse);
    let head = if w.len() > 0 {
        SEARCH_ITEMS_SELECT@ + SEARCH_ITEMS_WAREHOUSE_FILTER@
    } else {
        SEARCH_ITEMS_SELECT@
    };
    let bound: Seq<SqlArgValue> = if w.len() > 0 {
        seq![SqlArgValue::Text(w)]
    } else {
        seq![]
    };
    let open = if w.len() > 0 {
        AND_OPEN@
    } else {
        WHERE_OPEN@
    };
    lemma_term_filters_bind(head + open, bound, false, terms, k);
    let a2 = term_filters(head + open, bound, false, terms).1;
    let pt = SqlArgValue::Text(like_pattern(crate::search::normalized(terms[k])));
    let pc = SqlArgValue::Text(
        like_pattern(crate::search::compacted(crate::search::normalized(terms[k]))),
    );
    let i = choose|i: int| 0 <= i < a2.len() && a2[i] == pt;
    let j = choose|j: int| 0 <= j < a2.len() && a2[j] == pc;
    assert(a2.push(SqlArgValue::Int(limit))[i] == pt);
    assert(a2.push(SqlArgValue::Int(limit))[j] == pc);
}

/// The limit is applied exactly when it is positive: the query then ends
/// with the limit clause and the limit is the last value bound; otherwise
/// it ends with the ordering and binds no limit.
pub proof fn lemma_search_limit(terms: Seq<Seq<char>>, limit: i64, warehouse: Seq<char>)
    ensures
        ({
            let (sql, args) = search_items_query(terms, limit, warehouse);
            limit > 0 ==> {
                &&& LIMIT_CLAUSE@.is_suffix_of(sql)
                &&& args.len() > 0
                &&& args.last() == SqlArgValue::Int(limit)
            }
        }),
        ({
            let (sql, args) = search_items_query(terms, limit, warehouse);
            limit <= 0 ==> ORDER_BY_MODIFIED@.is_suffix_of(sql)
        }),
{
    let (sql, args) = search_items_query(terms, limit, warehouse);
    if limit > 0 {
        assert(sql.subrange(sql.len() - LIMIT_CLAUSE@.len(), sql.len() as int) =~= LIMIT_CLAUSE@);
    } else {
        assert(sql.subrange(sql.len() - ORDER_BY_MODIFIED@.len(), sql.len() as int)
            =~= ORDER_BY_MODIFIED@);
    }
}

proof fn lemma_prefix_append<T>(a: Seq<T>, b: Seq<T>)
    ensures
        a.is_prefix_of(a + b),
{
    assert((a + b).subrange(0, a.len() as int) =~= a);
}

proof fn lemma_prefix_trans<T>(a: Seq<T>, b: Seq<T>, c: Seq<T>)
    requires
        a.is_prefix_of(b),
        b.is_prefix_of(c),
    ensures
        a.is_prefix_of(c),
{
    assert(c.subrange(0, a.len() as int) =~= b.subrange(0, a.len() as int));
}

/// An item search ready to run: its query, the values to bind, and the
/// search terms the rows are ranked by.
pub struct ItemSearchPlan {
    pub sql: String,
    pub args: Vec<SqlArg>,
    pub terms: Vec<String>,
}

fn like_arg(s: &str) -> (r: SqlArg)
    ensures
        r@ == SqlArgValue::Text(like_pattern(s@)),
{
    let mut p = String::new();
    p.append("%");
    p.append(s);
    p.append("%");
    proof {
        reveal_strlit("%");
    }
    assert(p@ =~= like_pattern(s@));
    SqlArg::String(p)
}

/// Prepares an item search: the query text, its bound values and the
/// search terms of `query`.
pub fn plan_search_items(query: &str, limit: i64, warehouse: &str) -> (r: ItemSearchPlan)
    ensures
        text::strs_of(r.terms@) == crate::search::query_terms(query@),
        (r.sql@, args_of(r.args@)) == search_items_query(
            crate::search::query_terms(query@),
            limit,
            warehouse@,
        ),
{
    let w = trimmed(warehouse);
    let terms = search_terms(query);
    let ghost ts = text::strs_of(terms@);
    let mut args: Vec<SqlArg> = Vec::new();
    let mut sql = String::new();
    sql.append(SEARCH_ITEMS_SELECT);
    let has_warehouse = !w.as_str().is_empty();
    if has_warehouse {
        sql.append(SEARCH_ITEMS_WAREHOUSE_FILTER);
        args.push(SqlArg::String(w));
    }
    assert(args_of(args@) =~= if has_warehouse {
        seq![SqlArgValue::Text(text::trim_seq(warehouse@))]
    } else {
        seq![]
    });
    if terms.len() > 0 {
        if has_warehouse {
            sql.append(AND_OPEN);
        } else {
            sql.append(WHERE_OPEN);
        }
        let ghost target = term_filters(sql@, args_of(args@), false, ts);
        let mut added = false;
        let n = terms.len();
        let mut k: usize = 0;
        assert(ts.skip(0) =~= ts);
        while k < n
            invariant
                n == terms@.len(),
                ts == text::strs_of(terms@),
                k <= n,
                target == term_filters(sql@, args_of(args@), added, ts.skip(k as int)),
            decreases n - k,
        {
            assert(ts.skip(k as int)[0] == terms@[k as int]@);
            assert(ts.skip(k as int).drop_first() =~= ts.skip(k + 1));
            let term = normalized_search_text(terms[k].as_str());
            let compact = compact_field(term.as_str());
            if !term.as_str().is_empty() && !compact.as_str().is_empty() {
                if added {
                    sql.append(OR_SEPARATOR);
                }
                sql.append(SEARCH_ITEMS_TERM_FILTER);
                let ghost a0 = args_of(args@);
                args.push(like_arg(term.as_str()));
                args.push(like_arg(term.as_str()));
                args.push(like_arg(term.as_str()));
                args.push(like_arg(compact.as_str()));
                args.push(like_arg(compact.as_str()));
                args.push(like_arg(compact.as_str()));
                let ghost pt = SqlArgValue::Text(like_pattern(term@));
                let ghost pc = SqlArgValue::Text(like_pattern(compact@));
                assert(args_of(args@) =~= a0 + seq![pt, pt, pt, pc, pc, pc]);
                added = true;
            }
            k = k + 1;
        }
        assert(ts.skip(n as int) =~= Seq::<Seq<char>>::empty());
        sql.append(FILTERS_CLOSE);
    }
    sql.append(ORDER_BY_MODIFIED);
    if limit > 0 {
        sql.append(LIMIT_CLAUSE);
        let ghost a0 = args_of(args@);
        args.push(SqlArg::I64(limit));
        assert(args_of(args@) =~= a0.push(SqlArgValue::Int(limit)));
    }
    ItemSearchPlan { sql, args, terms }
}

} // verus!

verus! {

/// The items of `s` that have a non-empty item code, in order.
pub open spec fn coded_items(s: Seq<Item>) -> Seq<Item>
    decreases s.len(),
{
    if s.len() == 0 {
        s
    } else if s.last().item_code@.len() == 0 {
        coded_items(s.drop_last())
    } else {
        coded_items(s.drop_last()).push(s.last())
    }
}

/// `s` cut to `limit` items when a positive limit is exceeded.
pub open spec fn cut_to_limit(s: Seq<Item>, limit: i64) -> Seq<Item> {
    if limit > 0 && s.len() > (limit as usize) {
        s.take((limit as usize) as int)
    } else {
        s
    }
}

/// The rows of an item search as returned: trimmed, without code-less rows,
/// and, when there are search terms, ranked and cut to the limit.
pub open spec fn search_result(
    norm: Seq<Item>,
    terms: Seq<Seq<char>>,
    limit: i64,
    r: Seq<Item>,
) -> bool {
    let kept = coded_items(norm);
    if terms.len() == 0 {
        r == kept
    } else {
        exists|order: Seq<int>|
            crate::scoring::is_ranking(kept, terms, order) && r == cut_to_limit(
                order.map_values(|i: int| kept[i]),
                limit,
            )
    }
}

/// Keeps the items that have an item code.
fn retain_coded(items: Vec<Item>) -> (r: Vec<Item>)
    ensures
        r@ == coded_items(items@),
{
    let ghost orig = items@;
    let mut items = items;
    let mut kept: Vec<Item> = Vec::new();
    let n = items.len();
    let mut k: usize = 0;
    assert(orig.take(0) =~= Seq::<Item>::empty());
    while k < n
        invariant
            n == orig.len(),
            k <= n,
            items@ == orig.skip(k as int),
            kept@ == coded_items(orig.take(k as int)),
        decreases n - k,
    {
        let item = items.remove(0);
        assert(item == orig[k as int]);
        assert(items@ =~= orig.skip(k + 1));
        assert(orig.take(k + 1).drop_last() =~= orig.take(k as int));
        if !item.item_code.as_str().is_empty() {
            kept.push(item);
        }
        k = k + 1;
    }
    assert(orig.take(n as int) =~= orig);
    kept
}

/// Turns the rows of an item search into its answer: fields trimmed, rows
/// without a code dropped, and, when there are terms, the matching rows
/// ranked and cut to a positive limit.
pub fn finish_search_items(rows: Vec<Item>, terms: &[String], limit: i64) -> (r: Vec<Item>)
    requires
        terms@.len() <= MAX_SCORED_TERMS,
    ensures
        exists|norm: Seq<Item>|
            norm.len() == rows@.len() && (forall|i: int|
                0 <= i < rows@.len() ==> is_normalized_item(#[trigger] rows@[i], norm[i]))
                && search_result(norm, text::strs_of(terms@), limit, r@),
{
    let ghost orig = rows@;
    let mut rows = rows;
    normalize_items(rows.as_mut_slice());
    let ghost norm = rows@;
    let kept = retain_coded(rows);
    if terms.len() == 0 {
        assert(search_result(norm, text::strs_of(terms@), limit, kept@));
        return kept;
    }
    let ghost kept_view = kept@;
    let mut ranked = rank_items(kept, terms);
    let ghost order = choose|order: Seq<int>|
        crate::scoring::is_ranking(kept_view, text::strs_of(terms@), order) && ranked@
            == order.map_values(|i: int| kept_view[i]);
    if limit > 0 && ranked.len() > limit as usize {
        ranked.truncate(limit as usize);
        assert(ranked@ =~= cut_to_limit(order.map_values(|i: int| kept_view[i]), limit));
    }
    assert(search_result(norm, text::strs_of(terms@), limit, ranked@));
    ranked
}

} // verus!

verus! {

/// The error type of the `sqlx` crate, carried through unchanged.
#[verifier::external_type_specification]
#[verifier::external_body]
pub struct ExSqlxError(sqlx::Error);

/// Why a catalog lookup failed.
#[derive(Debug)]
pub enum StoreError {
    SearchItems(sqlx::Error),
    GetItem(sqlx::Error),
    SearchWarehouses(sqlx::Error),
    GetWarehouse(sqlx::Error),
    EmptyItemCode,
    ItemNotFound(String),
    EmptyWarehouse,
    WarehouseNotFound(String),
}

/// The trimmed item code to look up; an empty one is refused.
pub fn item_code_key(item_code: &str) -> (r: Result<String, StoreError>)
    ensures
        match r {
            Ok(code) => code@ == text::trim_seq(item_code@) && code@.len() > 0,
            Err(e) => text::trim_seq(item_code@).len() == 0 && e is EmptyItemCode,
        },
{
    let code = trimmed(item_code);
    if code.as_str().is_empty() {
        Err(StoreError::EmptyItemCode)
    } else {
        Ok(code)
    }
}

/// The trimmed warehouse name to look up; an empty one is refused.
pub fn warehouse_key(warehouse: &str) -> (r: Result<String, StoreError>)
    ensures
        match r {
            Ok(name) => name@ == text::trim_seq(warehouse@) && name@.len() > 0,
            Err(e) => text::trim_seq(warehouse@).len() == 0 && e is EmptyWarehouse,
        },
{
    let name = trimmed(warehouse);
    if name.as_str().is_empty() {
        Err(StoreError::EmptyWarehouse)
    } else {
        Ok(name)
    }
}

/// The answer to an item lookup by `item_code`: the row found, trimmed,
/// with the code standing in for an empty name; not found otherwise.
pub fn finish_get_item(row: Option<ItemDetail>, item_code: &str) -> (r: Result<ItemDetail, StoreError>)
    ensures
        match row {
            None => r matches Err(StoreError::ItemNotFound(code)) && code@ == item_code@,
            Some(found) => r matches Ok(d) && {
                &&& d.name@ == text::trim_seq(found.name@)
                &&& d.item_code@ == text::trim_seq(found.item_code@)
                &&& d.stock_uom@ == text::trim_seq(found.stock_uom@)
                &&& d.item_name@ == if text::trim_seq(found.item_name@).len() == 0 {
                    text::trim_seq(found.item_code@)
                } else {
                    text::trim_seq(found.item_name@)
                }
            },
        },
{
    match row {
        None => Err(StoreError::ItemNotFound(item_code.to_owned())),
        Some(found) => {
            let mut item = found;
            trim_item_detail(&mut item);
            if item.item_name.as_str().is_empty() {
                item.item_name = item.item_code.clone();
            }
            Ok(item)
        },
    }
}

/// The answer to a warehouse lookup by `warehouse`: the row found, trimmed;
/// not found otherwise.
pub fn finish_get_warehouse(row: Option<Warehouse>, warehouse: &str) -> (r: Result<
    Warehouse,
    StoreError,
>)
    ensures
        match row {
            None => r matches Err(StoreError::WarehouseNotFound(name)) && name@ == warehouse@,
            Some(found) => r matches Ok(w) && w.name@ == text::trim_seq(found.name@) && w.company@
                == text::trim_seq(found.company@),
        },
{
    match row {
        None => Err(StoreError::WarehouseNotFound(warehouse.to_owned())),
        Some(found) => Ok(
            Warehouse { name: trimmed(found.name.as_str()), company: trimmed(found.company.as_str()) },
        ),
    }
}

/// The query listing the warehouses of an item, optionally filtered by a
/// name pattern, with its bound values.
pub open spec fn item_warehouses_query(code: Seq<char>, query: Seq<char>, limit: i64) -> (
    Seq<char>,
    Seq<SqlArgValue>,
) {
    let q = text::trim_seq(query);
    let c = SqlArgValue::Text(code);
    let lim = SqlArgValue::Int(
        if limit <= 0 {
            20
        } else if limit > 50 {
            50
        } else {
            limit
        },
    );
    if q.len() > 0 {
        (
            ITEM_WAREHOUSES_SELECT@ + WAREHOUSE_LIKE@ + ITEM_WAREHOUSES_TAIL@,
            seq![c, c, c, SqlArgValue::Text(like_pattern(q)), lim],
        )
    } else {
        (ITEM_WAREHOUSES_SELECT@ + ITEM_WAREHOUSES_TAIL@, seq![c, c, c, lim])
    }
}

/// Prepares the warehouse listing of an item: the query and its bound
/// values; an empty item code is refused.
pub fn plan_item_warehouses(item_code: &str, query: &str, limit: i64) -> (r: Result<
    (String, Vec<SqlArg>),
    StoreError,
>)
    ensures
        match r {
            Ok((sql, args)) => text::trim_seq(item_code@).len() > 0 && (sql@, args_of(args@))
                == item_warehouses_query(text::trim_seq(item_code@), query@, limit),
            Err(e) => text::trim_seq(item_code@).len() == 0 && e is EmptyItemCode,
        },
{
    let code = match item_code_key(item_code) {
        Ok(code) => code,
        Err(e) => return Err(e),
    };
    let limit = normalize_limit(limit);
    let q = trimmed(query);
    let mut args: Vec<SqlArg> = Vec::new();
    args.push(SqlArg::String(code.clone()));
    args.push(SqlArg::String(code.clone()));
    args.push(SqlArg::String(code));
    let mut sql = String::new();
    sql.append(ITEM_WAREHOUSES_SELECT);
    if !q.as_str().is_empty() {
        sql.append(WAREHOUSE_LIKE);
        args.push(like_arg(q.as_str()));
    }
    sql.append(ITEM_WAREHOUSES_TAIL);
    args.push(SqlArg::I64(limit));
    let ghost (es, ea) = item_warehouses_query(text::trim_seq(item_code@), query@, limit);
    assert(sql@ =~= es);
    assert(args_of(args@) =~= ea);
    Ok((sql, args))
}

/// The rows of a warehouse listing that are kept: position and trimmed
/// name of every row whose trimmed name is not empty.
pub open spec fn kept_stock_rows(names: Seq<Seq<char>>) -> Seq<(int, Seq<char>)>
    decreases names.len(),
{
    if names.len() == 0 {
        seq![]
    } else {
        let rest = kept_stock_rows(names.drop_last());
        let t = text::trim_seq(names.last());
        if t.len() == 0 {
            rest
        } else {
            rest.push(((names.len() - 1) as int, t))
        }
    }
}

/// The rows kept are at most the rows given, in their order; each names the
/// position of a row whose trimmed warehouse is not empty and carries that
/// trimmed name, and every such row is kept.
pub proof fn lemma_kept_stock_rows(names: Seq<Seq<char>>)
    ensures
        kept_stock_rows(names).len() <= names.len(),
        forall|i: int|
            0 <= i < kept_stock_rows(names).len() ==> {
                let e = #[trigger] kept_stock_rows(names)[i];
                &&& 0 <= e.0 < names.len()
                &&& e.1 == text::trim_seq(names[e.0])
                &&& e.1.len() > 0
            },
        forall|i: int, j: int|
            0 <= i < j < kept_stock_rows(names).len() ==> (#[trigger] kept_stock_rows(names)[i]).0
                < (#[trigger] kept_stock_rows(names)[j]).0,
        forall|k: int|
            0 <= k < names.len() && (#[trigger] text::trim_seq(names[k])).len() > 0 ==> exists|i: int|
                0 <= i < kept_stock_rows(names).len() && (#[trigger] kept_stock_rows(names)[i]).0
                    == k,
    decreases names.len(),
{
    if names.len() > 0 {
        let init = names.drop_last();
        lemma_kept_stock_rows(init);
        let rest = kept_stock_rows(init);
        let r = kept_stock_rows(names);
        assert forall|i: int| 0 <= i < rest.len() implies r[i] == rest[i] by {}
        assert forall|k: int|
            0 <= k < names.len() && (#[trigger] text::trim_seq(names[k])).len() > 0 implies exists|i: int|
                0 <= i < r.len() && (#[trigger] r[i]).0 == k by {
            if k < init.len() {
                assert(init[k] == names[k]);
                assert(text::trim_seq(init[k]).len() > 0);
                let i = choose|i: int| 0 <= i < rest.len() && (#[trigger] rest[i]).0 == k;
                assert(r[i] == rest[i]);
            } else {
                assert(r[rest.len() as int].0 == k);
            }
        }
        assert forall|i: int| 0 <= i < rest.len() implies (#[trigger] rest[i]).0 < init.len() by {}
    }
}

/// Chooses the warehouse rows to answer with (see `kept_stock_rows`).
pub fn select_stock_rows(names: &Vec<String>) -> (r: Vec<(usize, String)>)
    ensures
        r@.len() <= names@.len(),
        r@.map_values(|e: (usize, String)| (e.0 as int, e.1@)) == kept_stock_rows(
            text::strs_of(names@),
        ),
{
    let ghost ns = text::strs_of(names@);
    let mut kept: Vec<(usize, String)> = Vec::new();
    let n = names.len();
    let mut k: usize = 0;
    assert(ns.take(0) =~= Seq::<Seq<char>>::empty());
    while k < n
        invariant
            n == names@.len(),
            ns == text::strs_of(names@),
            k <= n,
            kept@.map_values(|e: (usize, String)| (e.0 as int, e.1@)) == kept_stock_rows(
                ns.take(k as int),
            ),
        decreases n - k,
    {
        assert(ns.take(k + 1).drop_last() =~= ns.take(k as int));
        assert(ns.take(k + 1).last() == names@[k as int]@);
        let t = trimmed(names[k].as_str());
        if !t.as_str().is_empty() {
            let ghost before = kept@;
            kept.push((k, t));
            assert(kept@.map_values(|e: (usize, String)| (e.0 as int, e.1@)) =~= before.map_values(
                |e: (usize, String)| (e.0 as int, e.1@),
            ).push((k as int, text::trim_seq(names@[k as int]@))));
        }
        k = k + 1;
    }
    assert(ns.take(n as int) =~= ns);
    proof {
        lemma_kept_stock_rows(ns);
        assert(kept@.len() == kept@.map_values(|e: (usize, String)| (e.0 as int, e.1@)).len());
    }
    kept
}

} // verus!
