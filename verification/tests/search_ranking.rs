use gscale_erp_read_rs::scoring::rank_items;
use gscale_erp_read_rs::search::search_terms;
use gscale_erp_read_rs::store::Item;

fn item(code: &str) -> Item {
    Item {
        name: code.to_string(),
        item_code: code.to_string(),
        item_name: code.to_string(),
    }
}

#[test]
fn rank_items_matches_xot_lanch_phrase() {
    let got = rank_items(
        vec![
            item("xot lanch sochnaya kuritsa 90gr"),
            item("xot lanch sochnaya kuritsa ostriy 90gr"),
            item("Asl Sifat Hot Dog"),
        ],
        &search_terms("xot lanch"),
    );

    assert!(got.len() >= 2);
    assert_eq!(got[0].item_code, "xot lanch sochnaya kuritsa 90gr");
    assert_eq!(got[1].item_code, "xot lanch sochnaya kuritsa ostriy 90gr");
}

#[test]
fn rank_items_avoids_noisy_short_matches() {
    let got = rank_items(
        vec![
            item("Asl Sifat Hot Dog"),
            item("Asl sfat hot dog sosiski kuriniy"),
            item("elitex svitshot mujskoy zip paket"),
        ],
        &search_terms("hot"),
    );

    assert_eq!(got.len(), 2, "{got:#?}");
    assert!(got
        .iter()
        .all(|item| item.item_code != "elitex svitshot mujskoy zip paket"));
}

#[test]
fn search_terms_expand_hot_lanch_variants() {
    let terms = search_terms("hotlunch");

    for expected in ["hotlunch", "hotlanch", "xotlunch", "xotlanch"] {
        assert!(
            terms.iter().any(|term| term == expected),
            "expected {expected} in {terms:#?}"
        );
    }
}

#[test]
fn rank_items_matches_hot_lanch_aliases() {
    for query in [
        "hot lanch",
        "hotlanch",
        "hotlunch",
        "xot lunch",
        "hot launch",
        "xotlanch",
    ] {
        let got = rank_items(
            vec![
                item("xot lanch sochnaya kuritsa 90gr"),
                item("xot lanch sochnaya kuritsa ostriy 90gr"),
                item("Asl Sifat Hot Dog"),
            ],
            &search_terms(query),
        );

        assert!(got.len() >= 2, "query {query} got {got:#?}");
        assert_eq!(got[0].item_code, "xot lanch sochnaya kuritsa 90gr");
    }
}
