use std::path::PathBuf;

use gscale_erp_read_rs::appconfig::{
    config_from_site, resolve_site_name, trimmed_env_value, CommonSiteConfig, ConfigError,
    EnvOverrides, SiteConfig,
};
use gscale_erp_read_rs::httpapi::{
    bad_request, failure_from_store, failure_with_detail, parse_limit, path_value,
};
use gscale_erp_read_rs::scoring::{
    fuzzy_field_score, levenshtein_distance, rank_items, score_item_match, subsequence_match,
    token_typo_score,
};
use gscale_erp_read_rs::search::{
    add_with_variants, append_unique_search_value, compact_field, first_token,
    normalized_search_text, search_alias_variants, search_terms, token_alias_variants,
    transliterate_uzbek,
};
use gscale_erp_read_rs::store::{
    finish_get_item, finish_get_warehouse, finish_search_items, item_code_key, normalize_items,
    normalize_limit, plan_item_warehouses, plan_search_items, select_stock_rows, trim_item_detail,
    warehouse_key, Item, ItemDetail, SqlArg, StoreError, Warehouse, AND_OPEN, FILTERS_CLOSE,
    ITEM_WAREHOUSES_SELECT, ITEM_WAREHOUSES_TAIL, LIMIT_CLAUSE, ORDER_BY_MODIFIED, OR_SEPARATOR,
    SEARCH_ITEMS_SELECT, SEARCH_ITEMS_TERM_FILTER, SEARCH_ITEMS_WAREHOUSE_FILTER, WAREHOUSE_LIKE,
};

fn item(code: &str) -> Item {
    Item {
        name: code.to_string(),
        item_code: code.to_string(),
        item_name: code.to_string(),
    }
}

fn strings(values: &[&str]) -> Vec<String> {
    values.iter().map(|v| v.to_string()).collect()
}

#[test]
fn normalization_collapses_separators_and_lowercases() {
    assert_eq!(
        normalized_search_text("  Hot-Dog__Kuritsa \u{2019}90gr "),
        "hot dog kuritsa 90gr"
    );
    assert_eq!(normalized_search_text("  ...  "), "");
    assert_eq!(normalized_search_text("ÄBC"), "äbc");
}

#[test]
fn compact_field_drops_spaces() {
    assert_eq!(compact_field(" Hot  Dog "), "hotdog");
}

#[test]
fn first_token_takes_first_word() {
    assert_eq!(first_token("  alpha beta"), "alpha");
    assert_eq!(first_token("   "), "");
    assert_eq!(first_token("single"), "single");
}

#[test]
fn transliteration_rewrites_cyrillic() {
    assert_eq!(transliterate_uzbek("Шоколад"), "shokolad");
    assert_eq!(transliterate_uzbek("Choy"), "coy");
    assert_eq!(transliterate_uzbek("O'zbek"), "ozbek");
    assert_eq!(transliterate_uzbek("Ёғ"), "yog");
}

#[test]
fn levenshtein_counts_edits() {
    assert_eq!(levenshtein_distance("kitten", "sitting"), 3);
    assert_eq!(levenshtein_distance("", "abc"), 3);
    assert_eq!(levenshtein_distance("abc", ""), 3);
    assert_eq!(levenshtein_distance("abc", "abc"), 0);
    assert_eq!(levenshtein_distance("kurtsa", "kuritsa"), 1);
    assert_eq!(levenshtein_distance("kuritsa", "kurtsa"), 1);
}

#[test]
fn subsequence_needs_three_characters_in_order() {
    assert!(subsequence_match("hotdog", "hdg"));
    assert!(!subsequence_match("hotdog", "hd"));
    assert!(!subsequence_match("abc", "cba"));
    assert!(subsequence_match("abc", "abc"));
}

#[test]
fn typo_score_levels() {
    assert_eq!(token_typo_score("hot dog", "hot"), 110);
    assert_eq!(token_typo_score("hotdogs big", "hotdog"), 97);
    assert_eq!(token_typo_score("ahotdog", "hotdog"), 74);
    assert_eq!(token_typo_score("kuritsa", "kurtsa"), 68);
    assert_eq!(token_typo_score("kxuxrxitsa", "kuri"), 58);
    assert_eq!(token_typo_score("abc", ""), 0);
    assert_eq!(token_typo_score("zzzz", "kuri"), 0);
}

#[test]
fn fuzzy_score_levels() {
    assert_eq!(fuzzy_field_score("Hot Dog", "hot dog"), 120);
    assert_eq!(fuzzy_field_score("Hot Dog Big", "hot"), 100);
    assert_eq!(fuzzy_field_score("xot lanch", "xotlanch"), 99);
    assert_eq!(fuzzy_field_score("asl sifat hot dog", "hot"), 90);
    assert_eq!(fuzzy_field_score("elitex svitshot", "hot"), 0);
    assert_eq!(fuzzy_field_score("", "hot"), 0);
    assert_eq!(fuzzy_field_score("sochnaya kuritsa", "kuritsa"), 90);
    assert_eq!(fuzzy_field_score("sochnaya kuritsaa", "uritsa"), 75);
}

#[test]
fn limits_are_normalized() {
    assert_eq!(normalize_limit(-5), 20);
    assert_eq!(normalize_limit(0), 20);
    assert_eq!(normalize_limit(100), 50);
    assert_eq!(normalize_limit(7), 7);
}

#[test]
fn limit_parameter_parsing() {
    assert_eq!(parse_limit(Some(&" 15 ".to_string())), 15);
    assert_eq!(parse_limit(Some(&"+8".to_string())), 8);
    assert_eq!(parse_limit(Some(&"abc".to_string())), 0);
    assert_eq!(parse_limit(Some(&"-3".to_string())), 0);
    assert_eq!(parse_limit(Some(&"99999999999999999999".to_string())), 0);
    assert_eq!(parse_limit(None), 0);
}

#[test]
fn append_unique_normalizes_and_deduplicates() {
    let mut values = strings(&["a"]);
    append_unique_search_value(&mut values, "A ");
    assert_eq!(values, strings(&["a"]));
    append_unique_search_value(&mut values, "B-c");
    assert_eq!(values, strings(&["a", "b c"]));
    append_unique_search_value(&mut values, " -- ");
    assert_eq!(values, strings(&["a", "b c"]));
}

#[test]
fn token_variants_cover_spellings() {
    assert_eq!(token_alias_variants("Xot"), strings(&["xot", "hot"]));
    assert_eq!(token_alias_variants("Lunch"), strings(&["lunch", "lanch"]));
    assert_eq!(
        token_alias_variants("launch"),
        strings(&["launch", "lanch", "lunch"])
    );
    assert_eq!(token_alias_variants(" "), Vec::<String>::new());
}

#[test]
fn phrase_variants_combine_tokens() {
    assert_eq!(
        search_alias_variants("hot lunch"),
        strings(&[
            "hot lunch", "hotlunch", "hot lanch", "hotlanch", "xot lunch", "xotlunch",
            "xot lanch", "xotlanch"
        ])
    );
    assert!(search_alias_variants("").is_empty());
}

#[test]
fn variants_are_added_transitively() {
    let mut out = Vec::new();
    add_with_variants("Hot", &mut out);
    assert_eq!(out, strings(&["hot", "xot"]));
    add_with_variants("   ", &mut out);
    assert_eq!(out, strings(&["hot", "xot"]));
}

#[test]
fn search_terms_of_blank_and_short_queries() {
    assert!(search_terms("   ").is_empty());
    assert_eq!(search_terms(" Hot "), strings(&["hot", "xot"]));
    let terms = search_terms("choy shokolad");
    assert!(terms.iter().any(|t| t == "coy sokolad"));
    for (i, a) in terms.iter().enumerate() {
        assert!(!a.is_empty());
        for b in &terms[i + 1..] {
            assert_ne!(a, b);
        }
    }
}

#[test]
fn item_score_sums_best_fields() {
    let terms = strings(&["hot", "xot"]);
    assert_eq!(score_item_match(&item("Hot Dog"), &terms), 100);
    assert_eq!(score_item_match(&item("zzz"), &terms), 0);
}

#[test]
fn ranking_orders_by_score_then_code_then_position() {
    let terms = strings(&["hot"]);
    let got = rank_items(vec![item("b hot"), item("zzz"), item("a hot"), item("hot")], &terms);
    let codes: Vec<&str> = got.iter().map(|i| i.item_code.as_str()).collect();
    assert_eq!(codes, vec!["hot", "a hot", "b hot"]);

    let first = Item {
        name: "first".to_string(),
        item_code: "hot".to_string(),
        item_name: "hot".to_string(),
    };
    let second = Item {
        name: "second".to_string(),
        item_code: "hot".to_string(),
        item_name: "hot".to_string(),
    };
    let got = rank_items(vec![first, second], &terms);
    assert_eq!(got[0].name, "first");
    assert_eq!(got[1].name, "second");
}

#[test]
fn item_rows_are_trimmed() {
    let mut items = vec![Item {
        name: " N ".to_string(),
        item_code: " C ".to_string(),
        item_name: "  ".to_string(),
    }];
    normalize_items(&mut items);
    assert_eq!(items[0], item_with("N", "C", "C"));

    let mut detail = ItemDetail {
        name: " a ".to_string(),
        item_code: " b ".to_string(),
        item_name: " c ".to_string(),
        stock_uom: " Kg ".to_string(),
    };
    trim_item_detail(&mut detail);
    assert_eq!(detail.stock_uom, "Kg");
    assert_eq!(detail.item_name, "c");
}

fn item_with(name: &str, code: &str, item_name: &str) -> Item {
    Item {
        name: name.to_string(),
        item_code: code.to_string(),
        item_name: item_name.to_string(),
    }
}

#[test]
fn search_plan_without_filters() {
    let plan = plan_search_items("", 0, "  ");
    assert_eq!(plan.sql, format!("{SEARCH_ITEMS_SELECT}{ORDER_BY_MODIFIED}"));
    assert!(plan.args.is_empty());
    assert!(plan.terms.is_empty());
}

#[test]
fn search_plan_with_warehouse_terms_and_limit() {
    let plan = plan_search_items("hot", 5, " Stores - A ");
    assert_eq!(plan.terms, strings(&["hot", "xot"]));
    assert_eq!(
        plan.sql,
        format!(
            "{SEARCH_ITEMS_SELECT}{SEARCH_ITEMS_WAREHOUSE_FILTER}{AND_OPEN}{SEARCH_ITEMS_TERM_FILTER}{OR_SEPARATOR}{SEARCH_ITEMS_TERM_FILTER}{FILTERS_CLOSE}{ORDER_BY_MODIFIED}{LIMIT_CLAUSE}"
        )
    );
    let mut expected = vec![SqlArg::String("Stores - A".to_string())];
    for _ in 0..6 {
        expected.push(SqlArg::String("%hot%".to_string()));
    }
    for _ in 0..6 {
        expected.push(SqlArg::String("%xot%".to_string()));
    }
    expected.push(SqlArg::I64(5));
    assert_eq!(plan.args, expected);
}

#[test]
fn search_rows_are_cleaned_ranked_and_cut() {
    let rows = vec![
        item(" hot "),
        item_with("x", "  ", "y"),
        item("b hot"),
        item("a hot"),
    ];
    let got = finish_search_items(rows, &strings(&["hot"]), 2);
    let codes: Vec<&str> = got.iter().map(|i| i.item_code.as_str()).collect();
    assert_eq!(codes, vec!["hot", "a hot"]);

    let rows = vec![item(" zzz "), item_with("x", "", "y")];
    let got = finish_search_items(rows, &[], 1);
    assert_eq!(got, vec![item("zzz")]);
}

#[test]
fn lookup_keys_are_trimmed_and_required() {
    assert!(matches!(item_code_key("   "), Err(StoreError::EmptyItemCode)));
    assert_eq!(item_code_key(" ITM-001 ").unwrap(), "ITM-001");
    assert!(matches!(warehouse_key(""), Err(StoreError::EmptyWarehouse)));
    assert_eq!(warehouse_key(" Stores - A ").unwrap(), "Stores - A");
}

#[test]
fn item_lookup_answers() {
    match finish_get_item(None, "X1") {
        Err(StoreError::ItemNotFound(code)) => assert_eq!(code, "X1"),
        other => panic!("unexpected {other:?}"),
    }
    let row = ItemDetail {
        name: " ITM ".to_string(),
        item_code: " ITM-001 ".to_string(),
        item_name: "   ".to_string(),
        stock_uom: " Kg ".to_string(),
    };
    let got = finish_get_item(Some(row), "ITM-001").unwrap();
    assert_eq!(got.item_name, "ITM-001");
    assert_eq!(got.name, "ITM");
    assert_eq!(got.stock_uom, "Kg");
}

#[test]
fn warehouse_lookup_answers() {
    match finish_get_warehouse(None, "W") {
        Err(StoreError::WarehouseNotFound(name)) => assert_eq!(name, "W"),
        other => panic!("unexpected {other:?}"),
    }
    let got = finish_get_warehouse(
        Some(Warehouse {
            name: " Stores - A ".to_string(),
            company: " A Company ".to_string(),
        }),
        "Stores - A",
    )
    .unwrap();
    assert_eq!(got.name, "Stores - A");
    assert_eq!(got.company, "A Company");
}

#[test]
fn item_warehouse_plans() {
    assert!(matches!(
        plan_item_warehouses(" ", "", 0),
        Err(StoreError::EmptyItemCode)
    ));
    let (sql, args) = plan_item_warehouses(" ITM ", " stores ", 0).unwrap();
    assert_eq!(
        sql,
        format!("{ITEM_WAREHOUSES_SELECT}{WAREHOUSE_LIKE}{ITEM_WAREHOUSES_TAIL}")
    );
    assert_eq!(
        args,
        vec![
            SqlArg::String("ITM".to_string()),
            SqlArg::String("ITM".to_string()),
            SqlArg::String("ITM".to_string()),
            SqlArg::String("%stores%".to_string()),
            SqlArg::I64(20),
        ]
    );
    let (sql, args) = plan_item_warehouses("ITM", "", 80).unwrap();
    assert_eq!(sql, format!("{ITEM_WAREHOUSES_SELECT}{ITEM_WAREHOUSES_TAIL}"));
    assert_eq!(args.len(), 4);
    assert_eq!(args[3], SqlArg::I64(50));
}

#[test]
fn stock_rows_keep_named_warehouses() {
    let got = select_stock_rows(&strings(&["  A ", "   ", "B"]));
    assert_eq!(got, vec![(0, "A".to_string()), (2, "B".to_string())]);
}

#[test]
fn store_errors_become_answers() {
    let f = failure_from_store(&StoreError::ItemNotFound("X".to_string()));
    assert_eq!(f.status, 404);
    assert_eq!(f.message, "item topilmadi: X");
    let f = failure_from_store(&StoreError::EmptyWarehouse);
    assert_eq!(f.status, 400);
    assert_eq!(f.message, "warehouse is empty");
    let f = failure_from_store(&StoreError::GetItem(sqlx::Error::RowNotFound));
    assert_eq!(f.status, 500);
    assert!(f.message.starts_with("get item query: "));
    let f = bad_request("item_code is required");
    assert_eq!(f.status, 400);
    assert_eq!(f.message, "item_code is required");
}

#[test]
fn path_values_are_required() {
    let err = path_value("  ", "item_code is required").unwrap_err();
    assert_eq!(err.status, 400);
    assert_eq!(err.message, "item_code is required");
    assert_eq!(path_value(" ITM ", "x").ok().unwrap(), "ITM");
}

#[test]
fn environment_values_are_trimmed() {
    assert_eq!(trimmed_env_value(Some("  ".to_string())), None);
    assert_eq!(trimmed_env_value(Some(" x ".to_string())), Some("x".to_string()));
    assert_eq!(trimmed_env_value(None), None);
}

#[test]
fn site_name_resolution() {
    let common = CommonSiteConfig {
        default_site: " erp.localhost ".to_string(),
    };
    assert_eq!(
        resolve_site_name(None, Some(&common)).unwrap(),
        "erp.localhost"
    );
    assert_eq!(
        resolve_site_name(Some("other".to_string()), Some(&common)).unwrap(),
        "other"
    );
    let blank = CommonSiteConfig {
        default_site: "  ".to_string(),
    };
    assert!(matches!(
        resolve_site_name(None, Some(&blank)),
        Err(ConfigError::EmptySiteName)
    ));
}

fn no_overrides() -> EnvOverrides {
    EnvOverrides {
        read_addr: None,
        db_host: None,
        db_port: None,
        db_user: None,
    }
}

fn erp_site() -> SiteConfig {
    SiteConfig {
        db_host: String::new(),
        db_port: 0,
        db_name: "erpdb".to_string(),
        db_password: "secret".to_string(),
    }
}

#[test]
fn config_defaults_from_bench_site() {
    let cfg = config_from_site(
        PathBuf::from("/bench"),
        "erp.localhost".to_string(),
        PathBuf::from("/bench/sites/erp.localhost/site_config.json"),
        erp_site(),
        no_overrides(),
    )
    .unwrap();
    assert_eq!(cfg.site_name, "erp.localhost");
    assert_eq!(cfg.db_host, "127.0.0.1");
    assert_eq!(cfg.db_port, 3306);
    assert_eq!(cfg.db_user, "erpdb");
    assert_eq!(cfg.addr, "127.0.0.1:8090");
    let options = cfg.connect_options();
    assert_eq!(options.host, "127.0.0.1");
    assert_eq!(options.port, 3306);
    assert_eq!(options.username, "erpdb");
    assert_eq!(options.password, "secret");
    assert_eq!(options.database, "erpdb");
    assert_eq!(options.charset, "utf8mb4");
}

#[test]
fn config_overrides_and_errors() {
    let env = EnvOverrides {
        read_addr: Some("0.0.0.0:9000".to_string()),
        db_host: Some("db".to_string()),
        db_port: Some("+5432".to_string()),
        db_user: Some("reader".to_string()),
    };
    let cfg = config_from_site(PathBuf::from("/b"), "s".to_string(), PathBuf::from("/b/c"), erp_site(), env)
        .unwrap();
    assert_eq!(cfg.addr, "0.0.0.0:9000");
    assert_eq!(cfg.db_host, "db");
    assert_eq!(cfg.db_port, 5432);
    assert_eq!(cfg.db_user, "reader");

    let bad_port = EnvOverrides {
        db_port: Some("70000".to_string()),
        ..no_overrides()
    };
    assert!(matches!(
        config_from_site(PathBuf::from("/b"), "s".to_string(), PathBuf::from("/b/c"), erp_site(), bad_port),
        Err(ConfigError::InvalidDbPort(_))
    ));

    let mut site = erp_site();
    site.db_name = "  ".to_string();
    match config_from_site(PathBuf::from("/b"), "s".to_string(), PathBuf::from("/b/c"), site, no_overrides()) {
        Err(ConfigError::EmptyDbName(p)) => assert_eq!(p, PathBuf::from("/b/c")),
        other => panic!("unexpected {other:?}"),
    }

    let mut site = erp_site();
    site.db_password = String::new();
    assert!(matches!(
        config_from_site(PathBuf::from("/b"), "s".to_string(), PathBuf::from("/b/c"), site, no_overrides()),
        Err(ConfigError::EmptyDbPassword(_))
    ));

    let mut site = erp_site();
    site.db_host = " mysql ".to_string();
    site.db_port = 3307;
    let cfg = config_from_site(PathBuf::from("/b"), "s".to_string(), PathBuf::from("/b/c"), site, no_overrides())
        .unwrap();
    assert_eq!(cfg.db_host, "mysql");
    assert_eq!(cfg.db_port, 3307);
}

#[test]
fn alias_variants_stay_bounded() {
    let variants = search_alias_variants("xot lanch launch hot xlunch hlanch");
    assert!(!variants.is_empty());
    assert!(variants.len() <= 32, "{variants:#?}");
}

#[test]
fn trimming_leaves_no_edge_whitespace() {
    assert_eq!(gscale_erp_read_rs::text::trimmed(" \t a b \n "), "a b");
    assert_eq!(gscale_erp_read_rs::text::trimmed("   "), "");
}

#[test]
fn query_failures_carry_the_database_text() {
    let f = failure_with_detail(&StoreError::SearchItems(sqlx::Error::RowNotFound), "boom ");
    assert_eq!(f.status, 500);
    assert_eq!(f.message, "search items query: boom");
    let f = failure_with_detail(&StoreError::GetWarehouse(sqlx::Error::RowNotFound), "");
    assert_eq!(f.message, "get warehouse query:");
    let f = failure_with_detail(&StoreError::WarehouseNotFound("W".to_string()), "ignored");
    assert_eq!(f.status, 404);
    assert_eq!(f.message, "warehouse topilmadi: W");
    let f = failure_from_store(&StoreError::SearchWarehouses(sqlx::Error::RowNotFound));
    assert_eq!(
        f.message,
        "search warehouses query: no rows returned by a query that expected to return at least one row"
    );
}

#[test]
fn token_variants_start_with_the_token_and_stay_few() {
    let v = token_alias_variants(" Xlaunch ");
    assert_eq!(v[0], "xlaunch");
    assert!(v.len() <= 6);
    for (i, a) in v.iter().enumerate() {
        assert!(!a.is_empty());
        for b in &v[i + 1..] {
            assert_ne!(a, b);
        }
    }
    assert!(token_alias_variants("  -- ").is_empty());
}

#[test]
fn alias_variants_are_distinct() {
    let v = search_alias_variants("hot lanch");
    for (i, a) in v.iter().enumerate() {
        assert!(!a.is_empty());
        for b in &v[i + 1..] {
            assert_ne!(a, b);
        }
    }
}

#[test]
fn adding_variants_only_appends() {
    let mut out = strings(&["zzz"]);
    add_with_variants("Hot Lanch", &mut out);
    assert_eq!(out[0], "zzz");
    assert!(out.contains(&"hot lanch".to_string()));
    let before = out.clone();
    add_with_variants(" - ", &mut out);
    assert_eq!(out, before);
}

#[test]
fn first_search_term_is_the_normal_form() {
    let terms = search_terms("  Hot-Dog  ");
    assert_eq!(terms[0], "hot dog");
    assert!(search_terms("   ").is_empty());
}

#[test]
fn transliteration_leaves_no_mapped_letter() {
    let out = transliterate_uzbek("ЁШЛАР чойхона ўқиш ғалла ъ ь");
    let mapped = "ёюяшчғўқҳйцыэъьабвгдежзиклмнопрстуфх";
    assert!(!out.chars().any(|c| mapped.contains(c)), "{out}");
    assert_eq!(transliterate_uzbek("Hot Dog"), "hot dog");
}

#[test]
fn kept_stock_rows_never_outnumber_the_input() {
    let names = strings(&[" ", "a", "", " b "]);
    let got = select_stock_rows(&names);
    assert!(got.len() <= names.len());
    assert_eq!(got, vec![(1, "a".to_string()), (3, "b".to_string())]);
}
