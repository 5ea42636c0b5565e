use chunker::html::{
    extract_code_and_paragraphs, extract_tables_to_csv, sort_fragments, tables_to_csv, Fragment,
};

fn strings(list: &[&str]) -> Vec<String> {
    list.iter().map(|s| s.to_string()).collect()
}

fn fragment(tag: &str, text: &[&str]) -> Fragment {
    Fragment { tag: tag.to_string(), text: strings(text) }
}

#[test]
fn paragraphs_and_code_are_told_apart() {
    let html = "<html><body><p>Hello   world</p><pre>let x = 1;</pre>\
                <code>y</code><span>skip</span><div>no</div></body></html>";
    let (paragraphs, code) = extract_code_and_paragraphs(html);
    assert_eq!(paragraphs, strings(&["Hello world"]));
    assert_eq!(code, strings(&["let x = 1;", "y"]));
}

#[test]
fn elements_without_text_are_left_out() {
    let html = "<p>  </p><p></p><pre>\n</pre><p>kept</p><code> </code>";
    let (paragraphs, code) = extract_code_and_paragraphs(html);
    assert_eq!(paragraphs, strings(&["kept"]));
    assert_eq!(code, Vec::<String>::new());
}

#[test]
fn text_nodes_are_joined_by_one_space() {
    let html = "<p>a<b>b</b>c</p>";
    let (paragraphs, code) = extract_code_and_paragraphs(html);
    assert_eq!(paragraphs, strings(&["a b c"]));
    assert_eq!(code, Vec::<String>::new());
}

#[test]
fn code_inside_a_paragraph_counts_twice() {
    let html = "<p>call <code>f(x)</code> now</p>";
    let (paragraphs, code) = extract_code_and_paragraphs(html);
    assert_eq!(paragraphs, strings(&["call f(x) now"]));
    assert_eq!(code, strings(&["f(x)"]));
}

#[test]
fn a_document_without_text_elements_gives_nothing() {
    let (paragraphs, code) = extract_code_and_paragraphs("<div>only a div</div>");
    assert_eq!(paragraphs, Vec::<String>::new());
    assert_eq!(code, Vec::<String>::new());
    let (paragraphs, code) = extract_code_and_paragraphs("");
    assert_eq!(paragraphs, Vec::<String>::new());
    assert_eq!(code, Vec::<String>::new());
}

#[test]
fn sort_fragments_goes_by_the_tag() {
    let fragments = vec![
        fragment("p", &["first", "paragraph"]),
        fragment("span", &["ignored"]),
        fragment("code", &["a  =  1"]),
        fragment("p", &[" ", ""]),
        fragment("pre", &["  block\n", "two "]),
        fragment("P", &["upper case is another tag"]),
        fragment("p", &[]),
        fragment("pre", &[]),
        fragment("p", &["last"]),
    ];
    let (paragraphs, code) = sort_fragments(&fragments);
    assert_eq!(paragraphs, strings(&["first paragraph", "last"]));
    assert_eq!(code, strings(&["a = 1", "block two"]));
}

#[test]
fn sort_fragments_of_nothing() {
    let (paragraphs, code) = sort_fragments(&Vec::new());
    assert_eq!(paragraphs, Vec::<String>::new());
    assert_eq!(code, Vec::<String>::new());
}

#[test]
fn cells_are_joined_by_commas_and_rows_by_line_feeds() {
    let html = "<table><tr><td>a</td><td>b</td></tr><tr><td>c</td><td>d</td></tr></table>";
    assert_eq!(extract_tables_to_csv(html), strings(&["a,b\nc,d"]));
}

#[test]
fn header_cells_are_cells_too() {
    let html = "<table><tr><th>name</th><th>age</th></tr><tr><td>Ann</td><td>7</td></tr></table>";
    assert_eq!(extract_tables_to_csv(html), strings(&["name,age\nAnn,7"]));
}

#[test]
fn a_cell_without_text_gives_an_empty_field() {
    let html = "<table><tr><td>a</td><td></td><td> </td></tr><tr><th></th></tr></table>";
    assert_eq!(extract_tables_to_csv(html), strings(&["a,,\n"]));
    let html = "<table><tr><td></td><td>b</td><td></td><td>d</td></tr></table>";
    assert_eq!(extract_tables_to_csv(html), strings(&[",b,,d"]));
}

#[test]
fn the_text_of_a_cell_is_trimmed() {
    let html = "<table><tr><td>  a b </td><td>\n c\n</td><td>x<b>y</b>z</td></tr></table>";
    assert_eq!(extract_tables_to_csv(html), strings(&["a b,c,x y z"]));
}

#[test]
fn each_table_gives_one_text() {
    let html = "<table><tr><td></td><td></td><td></td></tr></table>\
                <p>between</p>\
                <table><tr><td>x</td></tr><tr><td>y</td></tr><tr><td></td><td>z</td></tr></table>";
    assert_eq!(extract_tables_to_csv(html), strings(&[",,", "x\ny\n,z"]));
}

#[test]
fn a_document_without_tables_gives_no_text() {
    assert_eq!(extract_tables_to_csv("<p>none</p>"), Vec::<String>::new());
    assert_eq!(extract_tables_to_csv(""), Vec::<String>::new());
}

#[test]
fn tables_to_csv_writes_rows_and_fields() {
    let cell = |text: &str| strings(&[text]);
    let tables = vec![vec![vec![cell("a"), cell("b")], vec![cell("c"), cell("d")]]];
    assert_eq!(tables_to_csv(&tables), strings(&["a,b\nc,d"]));
    assert_eq!(tables_to_csv(&Vec::new()), Vec::<String>::new());
}

#[test]
fn tables_to_csv_keeps_every_cell() {
    let blank = strings(&[" ", "\t"]);
    let empty: Vec<String> = Vec::new();
    let full = strings(&["text"]);
    let tables = vec![
        vec![vec![blank.clone(), full.clone(), empty.clone()], vec![full.clone()], vec![empty.clone()]],
        vec![],
        vec![vec![]],
        vec![vec![empty.clone(), empty.clone(), empty.clone()], vec![blank.clone(), blank]],
    ];
    assert_eq!(tables_to_csv(&tables), strings(&[",text,\ntext\n", "", "", ",,\n,"]));
}

#[test]
fn tables_to_csv_joins_the_text_nodes_of_a_cell() {
    let tables = vec![vec![vec![strings(&[" one", "two ", "three"]), strings(&["a, b"])]]];
    assert_eq!(tables_to_csv(&tables), strings(&["one two  three,a, b"]));
}
