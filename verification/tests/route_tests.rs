use tiny_pdg_cs::parse::parser::parse_source;
use tiny_pdg_cs::route::extractor::{
    extract_controller_routes, extract_minimal_api_routes, extract_source_routes, RouteEntry, RouteTable,
};
use tiny_pdg_cs::route::paths::combine_paths;

fn controller(src: &str) -> RouteTable {
    let tree = parse_source(src).unwrap();
    let mut table = RouteTable::new();
    extract_controller_routes(&tree, tree.root, &mut table);
    table
}

fn minimal(src: &str) -> RouteTable {
    let tree = parse_source(src).unwrap();
    let mut table = RouteTable::new();
    extract_minimal_api_routes(&tree, tree.root, &mut table);
    table
}

#[test]
fn test_extract_controller_routes() {
    let src = r#"
[Route("api/catalog")]
public class CatalogApi : ControllerBase
{
    [HttpGet("{id}")]
    public IActionResult GetItemById(int id) { return Ok(); }

    [HttpPost]
    public IActionResult CreateItem([FromBody] object req) { return Ok(); }
}
"#;
    let table = controller(src);
    assert_eq!(table.routes.len(), 2);

    let get = table.routes.iter().find(|r| r.http_method == "GET").unwrap();
    assert_eq!(get.path, "/api/catalog/{id}");
    assert_eq!(get.class, "CatalogApi");
    assert_eq!(get.handler, "GetItemById");
    assert_eq!(get.source, "Controller");

    let post = table.routes.iter().find(|r| r.http_method == "POST").unwrap();
    assert_eq!(post.path, "/api/catalog");
    assert_eq!(post.class, "CatalogApi");
    assert_eq!(post.handler, "CreateItem");
}

#[test]
fn test_extract_controller_routes_no_route_attr() {
    let src = r#"
public class CatalogApi : ControllerBase
{
    [HttpGet("{id}")]
    public IActionResult GetItemById(int id) { return Ok(); }
}
"#;
    let table = controller(src);
    assert_eq!(table.routes.len(), 1);
    assert_eq!(table.routes[0].path, "/{id}");
    assert_eq!(table.routes[0].http_method, "GET");
}

#[test]
fn test_extract_controller_routes_no_method_attr() {
    let src = r#"
[Route("api/items")]
public class ItemsApi : ControllerBase
{
    public IActionResult GetAll() { return Ok(); }
}
"#;
    let table = controller(src);
    assert_eq!(table.routes.len(), 1);
    assert_eq!(table.routes[0].http_method, "GET");
    assert_eq!(table.routes[0].path, "/api/items");
    assert_eq!(table.routes[0].handler, "GetAll");
}

#[test]
fn test_extract_controller_multiple_http_methods() {
    let src = r#"
[Route("api/catalog")]
public class CatalogApi : ControllerBase
{
    [HttpGet("{id}")]
    public IActionResult GetById(int id) { return Ok(); }

    [HttpPut("{id}")]
    public IActionResult Update(int id) { return Ok(); }

    [HttpDelete("{id}")]
    public IActionResult Delete(int id) { return Ok(); }
}
"#;
    let table = controller(src);
    assert_eq!(table.routes.len(), 3);
    let methods: Vec<&str> = table.routes.iter().map(|r| r.http_method.as_str()).collect();
    assert!(methods.contains(&"GET"));
    assert!(methods.contains(&"PUT"));
    assert!(methods.contains(&"DELETE"));
    for r in &table.routes {
        assert_eq!(r.path, "/api/catalog/{id}");
    }
}

#[test]
fn test_extract_minimal_api_routes() {
    let src = r#"
app.MapGet("/items", GetItemById);
app.MapPost("/items", CreateItem);
"#;
    let table = minimal(src);
    assert_eq!(table.routes.len(), 2);

    let get = table.routes.iter().find(|r| r.http_method == "GET").unwrap();
    assert_eq!(get.path, "/items");
    assert_eq!(get.handler, "GetItemById");
    assert_eq!(get.source, "MinimalApi");

    let post = table.routes.iter().find(|r| r.http_method == "POST").unwrap();
    assert_eq!(post.path, "/items");
    assert_eq!(post.handler, "CreateItem");
}

#[test]
fn test_extract_minimal_api_from_class() {
    let src = r#"
public class Startup
{
    public void Configure(IApplicationBuilder app)
    {
        app.MapGet("/api/items", GetAllItems);
        app.MapPost("/api/items", CreateItem);
    }

    public IResult GetAllItems() { return Results.Ok(); }
    public IResult CreateItem(object req) { return Results.Ok(); }
}
"#;
    let table = minimal(src);
    assert_eq!(table.routes.len(), 2);
    for r in &table.routes {
        assert_eq!(r.class, "Startup");
        assert!(r.handler == "GetAllItems" || r.handler == "CreateItem");
    }
}

#[test]
fn test_extract_minimal_api_put_delete_patch() {
    let src = r#"
app.MapPut("/items/{id}", UpdateItem);
app.MapDelete("/items/{id}", DeleteItem);
app.MapPatch("/items/{id}", PatchItem);
"#;
    let table = minimal(src);
    assert_eq!(table.routes.len(), 3);
    assert!(table.routes.iter().any(|r| r.http_method == "PUT"));
    assert!(table.routes.iter().any(|r| r.http_method == "DELETE"));
    assert!(table.routes.iter().any(|r| r.http_method == "PATCH"));
    for r in &table.routes {
        assert!(r.path.starts_with("/items"));
    }
}

#[test]
fn test_extract_integrated() {
    let src = r#"
using Microsoft.AspNetCore.Mvc;

[Route("api/catalog")]
public class CatalogApi : ControllerBase
{
    [HttpGet("{id}")]
    public IActionResult GetItemById(int id) { return Ok(); }

    [HttpPost]
    public IActionResult CreateItem([FromBody] object req) { return Ok(); }
}

public class Startup
{
    public void Configure(IApplicationBuilder app)
    {
        app.MapGet("/api/items", GetAllItems);
    }

    public IResult GetAllItems() { return Results.Ok(); }
}
"#;
    let tree = parse_source(src).unwrap();
    let mut table = RouteTable::new();
    extract_controller_routes(&tree, tree.root, &mut table);
    extract_minimal_api_routes(&tree, tree.root, &mut table);
    assert_eq!(table.routes.len(), 3);

    let controller_routes: Vec<&RouteEntry> = table.routes.iter().filter(|r| r.source == "Controller").collect();
    assert_eq!(controller_routes.len(), 2);

    let minimal_routes: Vec<&RouteEntry> = table.routes.iter().filter(|r| r.source == "MinimalApi").collect();
    assert_eq!(minimal_routes.len(), 1);
    assert_eq!(minimal_routes[0].class, "Startup");
    assert_eq!(minimal_routes[0].handler, "GetAllItems");
}

#[test]
fn test_combine_paths() {
    assert_eq!(combine_paths(&None, &None), "/");
    assert_eq!(combine_paths(&Some("api".into()), &None), "/api");
    assert_eq!(combine_paths(&Some("api/catalog".into()), &Some("{id}".into())), "/api/catalog/{id}");
    assert_eq!(combine_paths(&None, &Some("{id}".into())), "/{id}");
    assert_eq!(combine_paths(&Some("api/".into()), &Some("/{id}".into())), "/{id}");
    assert_eq!(combine_paths(&Some("api".into()), &Some("items".into())), "/api/items");
}

#[test]
fn test_extract_http_get_without_route_arg() {
    let src = r#"
[Route("api/values")]
public class ValuesController : ControllerBase
{
    [HttpGet]
    public IActionResult GetAll() { return Ok(); }
}
"#;
    let table = controller(src);
    assert_eq!(table.routes.len(), 1);
    assert_eq!(table.routes[0].http_method, "GET");
    assert_eq!(table.routes[0].path, "/api/values");
    assert_eq!(table.routes[0].handler, "GetAll");
}

#[test]
fn test_extract_http_post_without_route_arg() {
    let src = r#"
[Route("api/orders")]
public class OrdersController : ControllerBase
{
    [HttpPost]
    public IActionResult Create([FromBody] object req) { return Ok(); }
}
"#;
    let table = controller(src);
    assert_eq!(table.routes.len(), 1);
    assert_eq!(table.routes[0].http_method, "POST");
    assert_eq!(table.routes[0].path, "/api/orders");
}

#[test]
fn test_extract_http_methods_without_route_no_base_route() {
    let src = r#"
public class ProductsController : ControllerBase
{
    [HttpGet]
    public IActionResult GetAll() { return Ok(); }

    [HttpPost]
    public IActionResult Create([FromBody] object req) { return Ok(); }

    [HttpPut("{id}")]
    public IActionResult Update(int id) { return Ok(); }
}
"#;
    let table = controller(src);
    assert_eq!(table.routes.len(), 3);

    let get = table.routes.iter().find(|r| r.http_method == "GET").unwrap();
    assert_eq!(get.path, "/");

    let post = table.routes.iter().find(|r| r.http_method == "POST").unwrap();
    assert_eq!(post.path, "/");

    let put = table.routes.iter().find(|r| r.http_method == "PUT").unwrap();
    assert_eq!(put.path, "/{id}");
}

#[test]
fn test_extract_minimal_api_leading_slash() {
    let table = minimal(r#"app.MapGet("items", GetItems);"#);
    assert_eq!(table.routes.len(), 1);
    assert_eq!(table.routes[0].path, "/items");
}

#[test]
fn test_extract_controller_no_routes_no_attrs() {
    let src = r#"
[Route("api/test")]
public class TestController : ControllerBase
{
    public IActionResult DoSomething() { return Ok(); }
}
"#;
    let table = controller(src);
    assert_eq!(table.routes.len(), 1);
    assert_eq!(table.routes[0].http_method, "GET");
    assert_eq!(table.routes[0].path, "/api/test");
    assert_eq!(table.routes[0].handler, "DoSomething");
}

#[test]
fn source_routes_keep_controller_then_minimal_order() {
    let src = r#"
[Route("api/catalog")]
public class CatalogApi : ControllerBase
{
    [HttpPost]
    public IActionResult CreateItem([FromBody] object req) { return Ok(); }
}
app.MapDelete("/x", Remove);
"#;
    let mut table = RouteTable::new();
    extract_source_routes(src, &mut table);
    let got: Vec<(String, String)> = table.routes.iter().map(|r| (r.http_method.clone(), r.path.clone())).collect();
    assert_eq!(got, vec![("POST".to_string(), "/api/catalog".to_string()), ("DELETE".to_string(), "/x".to_string())]);
}

#[test]
fn combined_path_always_starts_with_slash() {
    for (b, s) in [(None, None), (Some("a/"), None), (None, Some("/")), (Some("//x//"), Some("y/"))] {
        let p = combine_paths(&b.map(String::from), &s.map(String::from));
        assert!(p.starts_with('/'));
    }
}
