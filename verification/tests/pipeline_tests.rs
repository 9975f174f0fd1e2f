use builder::fsplan::{copy_dir, DirEntry, FsAction};
use builder::pipeline::{
    build_index, concat_parts, excerpt_of, item_vars, post_url, post_vars,
    retain_published, sort_posts_by_date, split_front_matter, FrontMatterError, Metadata,
    Post,
};
use builder::subst::{substitute, VarMap};

fn post(url: &str, title: &str, date: &str, draft: bool, excerpt: &str) -> Post {
    Post {
        url: url.to_string(),
        metadata: Metadata {
            title: title.to_string(),
            date: date.to_string(),
            draft,
        },
        excerpt: excerpt.to_string(),
    }
}

#[test]
fn splits_front_matter_and_body() {
    let (front, body) = split_front_matter("+++\ntitle = \"t\"\n+++\nbody text").unwrap();
    assert_eq!(front, "\ntitle = \"t\"\n");
    assert_eq!(body, "\nbody text");
}

#[test]
fn text_before_the_first_delimiter_is_ignored() {
    let (front, body) = split_front_matter("junk+++f+++b").unwrap();
    assert_eq!(front, "f");
    assert_eq!(body, "b");
}

#[test]
fn body_stops_at_a_third_delimiter() {
    let (front, body) = split_front_matter("+++f+++b+++rest").unwrap();
    assert_eq!(front, "f");
    assert_eq!(body, "b");
}

#[test]
fn missing_front_matter_is_an_error() {
    assert!(matches!(
        split_front_matter("no delimiters here"),
        Err(FrontMatterError::MissingFrontMatter)
    ));
}

#[test]
fn missing_body_is_an_error() {
    assert!(matches!(
        split_front_matter("+++only front"),
        Err(FrontMatterError::MissingBody)
    ));
}

#[test]
fn excerpt_stops_at_the_marker() {
    assert_eq!(excerpt_of("<p>a</p><!--excerpt--><p>b</p>"), "<p>a</p>");
}

#[test]
fn excerpt_without_marker_is_everything() {
    assert_eq!(excerpt_of("<p>a</p>"), "<p>a</p>");
}

#[test]
fn post_urls_strip_the_date_prefix() {
    assert_eq!(post_url("2023-01-01-hello"), "posts/hello");
}

#[test]
fn posts_sort_newest_first() {
    let posts = vec![
        post("a", "a", "2023-01-01", false, ""),
        post("b", "b", "2024-06-01", false, ""),
        post("c", "c", "2023-12-31", false, ""),
    ];
    let sorted = sort_posts_by_date(posts);
    let dates: Vec<&str> = sorted.iter().map(|p| p.metadata.date.as_str()).collect();
    assert_eq!(dates, vec!["2024-06-01", "2023-12-31", "2023-01-01"]);
}

#[test]
fn drafts_are_excluded_silently() {
    let posts = vec![
        post("a", "a", "2023-01-01", false, ""),
        post("d", "d", "2023-06-01", true, ""),
        post("b", "b", "2023-02-01", false, ""),
    ];
    let kept = retain_published(posts);
    let urls: Vec<&str> = kept.iter().map(|p| p.url.as_str()).collect();
    assert_eq!(urls, vec!["a", "b"]);
}

#[test]
fn post_page_substitutes_title_and_date() {
    let meta = Metadata {
        title: "My post".to_string(),
        date: "2023-01-01".to_string(),
        draft: false,
    };
    let vars = post_vars(&meta);
    assert_eq!(
        substitute("<h1>${title}</h1><time>${date}</time>", &vars),
        "<h1>My post</h1><time>2023-01-01</time>"
    );
}

#[test]
fn index_lists_posts_in_the_given_order() {
    let posts = vec![
        post("posts/b", "B", "2024-06-01", false, "eb"),
        post("posts/c", "C", "2023-12-31", false, "ec"),
        post("posts/a", "A", "2023-01-01", false, "ea"),
    ];
    let mut outer = VarMap::new();
    outer.insert("title".to_string(), "home".to_string());
    let page = build_index(
        "[${title}]",
        "<ul>",
        "<li><a href=\"${url}\">${title}</a> ${date} ${excerpt}</li>",
        "</ul>",
        "[end]",
        &posts,
        &outer,
    );
    assert_eq!(
        page,
        "[home]<ul>\
         <li><a href=\"posts/b\">B</a> 2024-06-01 eb</li>\
         <li><a href=\"posts/c\">C</a> 2023-12-31 ec</li>\
         <li><a href=\"posts/a\">A</a> 2023-01-01 ea</li>\
         </ul>[end]"
    );
}

#[test]
fn a_draft_post_makes_no_index_entry() {
    let posts = retain_published(vec![post("posts/d", "D", "2024-01-01", true, "ed")]);
    let mut outer = VarMap::new();
    outer.insert("title".to_string(), "home".to_string());
    let page = build_index("H", "<ul>", "<li>${title}</li>", "</ul>", "F", &posts, &outer);
    assert_eq!(page, "H<ul></ul>F");
}

#[test]
fn index_item_vars_cover_all_four_names() {
    let p = post("posts/x", "X", "2020-02-02", false, "ex");
    let vars = item_vars(&p);
    assert_eq!(
        substitute("${url}|${date}|${title}|${excerpt}", &vars),
        "posts/x|2020-02-02|X|ex"
    );
}

#[test]
fn copy_plan_mirrors_the_listing() {
    let entries = vec![
        DirEntry { rel_path: "css".to_string(), is_dir: true },
        DirEntry { rel_path: "css/site.css".to_string(), is_dir: false },
        DirEntry { rel_path: "logo.png".to_string(), is_dir: false },
    ];
    let plan = copy_dir("static", "output", &entries);
    assert_eq!(plan.len(), 4);
    assert!(matches!(&plan[0], FsAction::CreateDir { path } if path == "output"));
    assert!(matches!(&plan[1], FsAction::CreateDir { path } if path == "output/css"));
    assert!(matches!(
        &plan[2],
        FsAction::CopyFile { from, to }
            if from == "static/css/site.css" && to == "output/css/site.css"
    ));
    assert!(matches!(
        &plan[3],
        FsAction::CopyFile { from, to } if from == "static/logo.png" && to == "output/logo.png"
    ));
}

#[test]
fn pages_are_plain_concatenations() {
    let parts = vec!["head|".to_string(), "body|".to_string(), "foot".to_string()];
    assert_eq!(concat_parts(&parts), "head|body|foot");
    assert_eq!(concat_parts(&Vec::new()), "");
}
