use nanochat_rs::assets::{html_places, logo_places, Place, UiAssets};
use nanochat_rs::check_points::{extract_step_from_filename, find_last_step, ModelFiles};
use nanochat_rs::text::{decimal_text, is_white_space, replace, trim};
use std::path::Path;

#[test]
fn steps_in_file_names() {
    assert_eq!(extract_step_from_filename("model_000123.pt"), Some(123));
    assert_eq!(extract_step_from_filename("model_7.pt"), Some(7));
    assert_eq!(extract_step_from_filename("model_+7.pt"), Some(7));
    assert_eq!(
        extract_step_from_filename("model_18446744073709551615.pt"),
        Some(u64::MAX)
    );
    assert_eq!(
        extract_step_from_filename("model_18446744073709551616.pt"),
        None
    );
    for name in [
        "model_.pt", "model_+.pt", "model_-7.pt", "model_7.pth", "meta_7.pt", "model_ 7.pt",
        "model_٣.pt", "model_", ".pt", "", "model.pt",
    ] {
        assert_eq!(extract_step_from_filename(name), None);
    }
}

#[test]
fn the_highest_step_is_found() {
    let names = |list: &[&str]| -> Vec<String> { list.iter().map(|s| s.to_string()).collect() };
    assert_eq!(
        find_last_step(&names(&["model_5.pt", "x", "model_000012.pt", "model_9.pt"])),
        Some(12)
    );
    assert_eq!(find_last_step(&names(&["meta_5.json"])), None);
    assert_eq!(find_last_step(&names(&[])), None);
    for step in [0u64, 7, 999_999, 1_000_000, u64::MAX] {
        let name = format!("model_{:06}.pt", step);
        assert_eq!(extract_step_from_filename(&name), Some(step));
    }
}

#[test]
fn files_of_a_model() {
    let files = ModelFiles::new(None).unwrap();
    assert_eq!(files.config_path(), "meta.json");
    assert_eq!(files.model_path(), "model.pt");
    assert_eq!(files.tokenizer_path(), "tokenizer.pkl");
    let files = ModelFiles::new(Some("abc".to_string())).unwrap();
    assert_eq!(files.config_path(), "meta_abc.json");
    assert_eq!(files.model_path(), "model_abc.pt");
    assert_eq!(files.tokenizer_path(), "tokenizer.pkl");
}

#[test]
fn files_in_a_directory() {
    let dir = Path::new("some/dir");
    let names = vec!["model_5.pt".to_string(), "model_42.pt".to_string()];
    let files = ModelFiles::new_from_dir(dir, Some(&names)).unwrap();
    assert_eq!(files.config, dir.join("meta_000042.json"));
    assert_eq!(files.model, dir.join("model_000042.pt"));
    assert_eq!(files.tokenizer, dir.join("tokenizer.pkl"));
    assert_eq!(files.model_path(), dir.join("model_000042.pt").to_str().unwrap());
    let files = ModelFiles::new_from_dir(dir, None).unwrap();
    assert_eq!(files.model, dir.join("model.pt"));
    let mut files = ModelFiles::new(None).unwrap();
    files.set_tokenizer_base(dir);
    assert_eq!(files.model_path(), "model.pt");
    assert_eq!(files.tokenizer, dir.join("tokenizer.pkl"));
    let again = files.clone();
    assert_eq!(again.config, files.config);
    assert_eq!(again.model, files.model);
    assert_eq!(again.tokenizer, files.tokenizer);
}

#[test]
fn setting_a_base_again_changes_nothing() {
    let base = Path::new("/models");
    let mut files = ModelFiles::new(None).unwrap();
    files.set_model_base(base);
    files.set_tokenizer_base(base);
    let once = files.clone();
    assert_eq!(once.config_path(), base.join("meta.json").to_str().unwrap());
    files.set_tokenizer_base(base);
    files.set_model_base(base);
    assert_eq!(files.config, once.config);
    assert_eq!(files.model, once.model);
    assert_eq!(files.tokenizer, once.tokenizer);
    let mut nested = ModelFiles::new(Some("a/b".to_string())).unwrap();
    nested.set_model_base(Path::new(""));
    assert_eq!(nested.model_path(), "model_a/b.pt");
    nested.set_model_base(Path::new("/"));
    assert_eq!(nested.model_path(), "/model_a/b.pt");
}

#[test]
fn places_of_the_page() {
    let paths = |places: Vec<Place>| -> Vec<String> {
        places
            .into_iter()
            .map(|place| match place {
                Place::Given => "given".to_string(),
                Place::Path(path) => path.to_string(),
            })
            .collect()
    };
    assert_eq!(
        paths(html_places(true)),
        vec![
            "given",
            "nanochat/ui.html",
            "reference/nanochat/ui.html",
            "reference/nanochat/nanochat/ui.html",
        ]
    );
    assert_eq!(
        paths(logo_places(false)),
        vec![
            "nanochat/logo.svg",
            "reference/nanochat/logo.svg",
            "reference/nanochat/nanochat/logo.svg",
        ]
    );
}

#[test]
fn the_page_calls_its_own_server() {
    let html = "<script>const API_URL = `http://${window.location.hostname}:8000`;</script>";
    let assets = UiAssets {
        html: Some(html.to_string()),
        logo: None,
    };
    assert_eq!(assets.root_page(), "<script>const API_URL = '';</script>");
    let none = UiAssets {
        html: None,
        logo: None,
    };
    assert_eq!(
        none.root_page(),
        "<h1>NanoChat</h1><p>UI not configured.</p>"
    );
}

#[test]
fn white_space_is_what_unicode_says() {
    for code in 0..=0x10FFFFu32 {
        if let Some(c) = char::from_u32(code) {
            assert_eq!(is_white_space(c), c.is_whitespace());
        }
    }
}

#[test]
fn texts() {
    for text in ["", "  a b\t\n", "\u{3000}x\u{85}", "none", " \u{200b} "] {
        assert_eq!(trim(text), text.trim());
    }
    for (text, from, to) in [
        ("aaaa", "aa", "b"),
        ("aaaaa", "aa", "aa"),
        ("abcabc", "bc", ""),
        ("x", "long", "y"),
        ("äöä", "ä", "ae"),
    ] {
        assert_eq!(replace(text, from, to), text.replace(from, to));
    }
    for n in [0u64, 9, 10, 4096, u64::MAX] {
        assert_eq!(decimal_text(n), n.to_string());
    }
}
