use codebase_recall::assets::{graph_page, Delivery, BODY_HEAD, BODY_TAIL};

#[test]
fn server_page_links_its_assets_and_escapes_the_data() {
    let page = graph_page("{\"a\":\"</script>\"}", "3 nodes / 2 edges", Delivery::Server, "css", "d3", "view");
    assert!(page.starts_with("<!doctype html>\n<html lang=\"en\">\n<head>\n"));
    assert!(page.contains("<link rel=\"stylesheet\" href=\"/assets/graph.css\">\n</head>\n<body>\n"));
    assert!(page.contains("<span class=\"stat\">3 nodes / 2 edges</span>"));
    assert!(page.contains(
        "<script id=\"graph-data\" type=\"application/json\">{\"a\":\"\\u003c/script>\"}</script>\n"
    ));
    assert!(page.ends_with(
        "<script src=\"/assets/d3.min.js\"></script>\n<script src=\"/assets/graph-view.js\"></script>\n<script src=\"/assets/live.js\"></script>\n</body>\n</html>\n"
    ));
    assert!(!page.contains("css") || page.contains("graph.css"));
}

#[test]
fn inline_page_carries_its_assets() {
    let page = graph_page("[]", "0 nodes", Delivery::Inline, "body{}", "D3", "VIEW");
    let expected = format!(
        "<!doctype html>\n<html lang=\"en\">\n<head>\n<meta charset=\"utf-8\">\n<meta name=\"viewport\" content=\"width=device-width, initial-scale=1\">\n<title>code-ctx graph</title>\n<style>body{{}}</style>\n</head>\n<body>\n{}0 nodes{}\n<script id=\"graph-data\" type=\"application/json\">[]</script>\n<script>D3</script>\n<script>VIEW</script>\n</body>\n</html>\n",
        BODY_HEAD, BODY_TAIL
    );
    assert_eq!(page, expected);
}
