use meread::listing::{escape_html, listing_markdown, DirEntry};

fn dir(name: &str) -> DirEntry {
    DirEntry { name: name.to_string(), is_dir: true }
}

fn file(name: &str) -> DirEntry {
    DirEntry { name: name.to_string(), is_dir: false }
}

const TEMP_DIR: &str = "/tmp/meread-test-listing";

#[test]
fn groups_directories_and_markdown_as_pages() {
    let entries = vec![
        dir("archive"),
        dir("drafts"),
        file("ideas.md"),
        file("notes.markdown"),
        file("diagram.png"),
        file("scratch.txt"),
    ];

    let markdown = listing_markdown(TEMP_DIR, "", &entries);
    let pages = markdown.find("## Pages").unwrap();
    let files = markdown.find("## Files").unwrap();

    for page in ["archive/", "drafts/", "ideas.md", "notes.markdown"] {
        let at = markdown.find(&format!(">{}<", page)).unwrap();
        assert!(at > pages && at < files, "{} not listed under Pages", page);
    }
    for file in ["diagram.png", "scratch.txt"] {
        let at = markdown.find(&format!(">{}<", file)).unwrap();
        assert!(at > files, "{} not listed under Files", file);
    }
}

#[test]
fn sorts_directories_first_then_case_insensitively() {
    let entries = vec![file("beta.md"), file("Alpha.md"), dir("zebra")];

    let markdown = listing_markdown(TEMP_DIR, "", &entries);
    let order: Vec<_> = ["zebra/", "Alpha.md", "beta.md"]
        .iter()
        .map(|name| markdown.find(&format!(">{}<", name)).unwrap())
        .collect();

    assert!(order.windows(2).all(|pair| pair[0] < pair[1]), "{}", markdown);
}

#[test]
fn hrefs_are_root_absolute_and_encoded() {
    let entries = vec![file("My Notes.md"), dir("sub")];

    let markdown = listing_markdown("/tmp/meread-test-listing_hrefs", "docs/deep", &entries);

    assert!(markdown.contains("href=\"/docs/deep/My%20Notes.md\""), "{}", markdown);
    // directories keep their trailing slash, so relative links inside them resolve correctly
    assert!(markdown.contains("href=\"/docs/deep/sub/\""), "{}", markdown);
    assert!(markdown.starts_with("# docs/deep/\n"), "{}", markdown);
}

#[test]
fn skips_git_but_keeps_other_dotfiles() {
    let entries = vec![dir(".git"), dir(".github"), file(".hidden.md")];

    let markdown = listing_markdown(TEMP_DIR, "", &entries);

    assert!(!markdown.contains(".git/"), "{}", markdown);
    assert!(markdown.contains(">.github/<"), "{}", markdown);
    assert!(markdown.contains(">.hidden.md<"), "{}", markdown);
}

#[test]
fn reports_empty_directory() {
    let markdown = listing_markdown(TEMP_DIR, "", &Vec::new());

    assert!(markdown.contains("*empty directory*"), "{}", markdown);
    assert!(!markdown.contains("<ul>"), "{}", markdown);
}

#[test]
fn escapes_html_in_names() {
    assert_eq!(escape_html("a<b>&\"c\""), "a&lt;b&gt;&amp;&quot;c&quot;");
}

#[test]
fn escapes_single_quotes_too() {
    assert_eq!(escape_html("it's"), "it&#39;s");
    assert_eq!(escape_html("plain"), "plain");
}

#[test]
fn the_whole_listing_of_a_small_directory() {
    let entries = vec![file("b.txt"), dir("docs"), file("a.md")];

    let markdown = listing_markdown("/srv/notes", "", &entries);

    assert_eq!(
        markdown,
        "# notes/\n\
         \n## Pages\n\n<ul>\n\
         <li><a href=\"/docs/\">docs/</a></li>\n\
         <li><a href=\"/a.md\">a.md</a></li>\n\
         </ul>\n\
         \n## Files\n\n<ul>\n\
         <li><a href=\"/b.txt\">b.txt</a></li>\n\
         </ul>\n"
    );
}

#[test]
fn only_files_gives_no_pages_section() {
    let markdown = listing_markdown("/srv/notes", "sub", &vec![file("x.png")]);

    assert_eq!(
        markdown,
        "# sub/\n\n## Files\n\n<ul>\n<li><a href=\"/sub/x.png\">x.png</a></li>\n</ul>\n"
    );
}

#[test]
fn the_root_of_the_file_system_is_titled_slash() {
    let markdown = listing_markdown("/", "", &Vec::new());

    assert_eq!(markdown, "# //\n\n*empty directory*\n");
}

#[test]
fn case_is_ignored_when_sorting_so_lowercase_may_come_first() {
    let entries = vec![file("Beta.md"), file("alpha.md")];

    let markdown = listing_markdown(TEMP_DIR, "", &entries);

    assert!(markdown.find(">alpha.md<").unwrap() < markdown.find(">Beta.md<").unwrap(), "{}", markdown);
}

#[test]
fn names_that_differ_only_in_case_keep_the_order_they_were_read_in() {
    let entries = vec![file("b.md"), file("B.md"), file("a.md")];

    let markdown = listing_markdown(TEMP_DIR, "", &entries);

    let a = markdown.find(">a.md<").unwrap();
    let lower = markdown.find(">b.md<").unwrap();
    let upper = markdown.find(">B.md<").unwrap();
    assert!(a < lower && lower < upper, "{}", markdown);
}

#[test]
fn names_with_markup_are_escaped_in_labels_and_links() {
    let entries = vec![file("<x> & y.md")];

    let markdown = listing_markdown(TEMP_DIR, "", &entries);

    assert!(markdown.contains("<li><a href=\"/&lt;x&gt;%20&amp;%20y.md\">&lt;x&gt; &amp; y.md</a></li>"), "{}", markdown);
}
