//! Laravel conventions.

use plouf_rs::laravel::{
    convention_table, related_model, scan_data_migrations, scan_raw_sql_tables, scan_route_attributes, scan_routes,
    scan_tables,
};
use plouf_rs::model::{Node, RawEdge};

#[test]
fn convention_pluralizer_cases() {
    assert_eq!(convention_table("Company"), "companies");
    assert_eq!(convention_table("Address"), "addresses");
    assert_eq!(convention_table("InvoiceLine"), "invoice_lines");
    assert_eq!(convention_table("User"), "users");
    assert_eq!(convention_table("Category"), "categories");
    // Latin -is -> -es, e.g. a `VariantAxis` model maps to `variant_axes`.
    assert_eq!(convention_table("VariantAxis"), "variant_axes");
    assert_eq!(convention_table("Analysis"), "analyses");
}

#[test]
fn related_model_from_class_const_or_string() {
    assert_eq!(related_model("$this->belongsTo(Company::class)").as_deref(), Some("Company"));
    assert_eq!(related_model("$this->hasMany(\\App\\Models\\Line::class, 'fk')").as_deref(), Some("Line"));
    assert_eq!(related_model("$this->belongsTo('App\\Models\\User')").as_deref(), Some("User"));
    assert_eq!(related_model("$this->morphTo()"), None);
}

#[test]
fn model_table_resolution_edges() {
    // Not a model base + no $table -> nothing.
    assert_eq!(plouf_rs::laravel::model_table("PriceService", &["SomeBase".to_string()], "class body"), None);
    // Explicit $table wins regardless of the base class.
    assert_eq!(plouf_rs::laravel::model_table("X", &[], "protected $table = 'widgets';").as_deref(), Some("widgets"));
    // A `$table` that is not a string assignment is ignored.
    assert_eq!(plouf_rs::laravel::model_table("X", &[], "$table->string('name');"), None);
    // A model base with no explicit $table falls back to the convention.
    assert_eq!(plouf_rs::laravel::model_table("Company", &["Model".to_string()], "").as_deref(), Some("companies"));
}

#[test]
fn scan_tables_skips_dynamic_table_names() {
    let mut nodes: Vec<Node> = Vec::new();
    let mut edges: Vec<RawEdge> = Vec::new();
    plouf_rs::laravel::scan_tables("f.php", "<?php DB::table($name)->get(); Schema::create($t);", &mut nodes, &mut edges);
    assert!(edges.is_empty() && nodes.is_empty());
}

#[test]
fn scan_tables_boundary_and_no_paren() {
    let mut nodes: Vec<Node> = Vec::new();
    let mut edges: Vec<RawEdge> = Vec::new();
    // `myDB::table` is a longer name (preceding ident char) -> ignored;
    // `Schema::create` with no `(` after -> ignored.
    plouf_rs::laravel::scan_tables("f.php", "<?php myDB::table('x'); Schema::create ; DB::table  ('spaced');", &mut nodes, &mut edges);
    assert!(!edges.iter().any(|e| e.name.as_deref() == Some("x")));
    assert!(edges.iter().any(|e| e.relation == "uses-table" && e.name.as_deref() == Some("spaced")));
}

#[test]
fn scan_routes_links_route_file_to_controllers() {
    let names = |code: &str| -> Vec<String> {
        let mut nodes: Vec<Node> = Vec::new();
        let mut edges: Vec<RawEdge> = Vec::new();
        scan_routes("routes/web.php", code, &mut nodes, &mut edges);
        edges.iter().filter(|e| e.relation == "routes-to").filter_map(|e| e.name.clone()).collect()
    };
    // Action array [Controller::class, 'method'].
    assert_eq!(names("<?php Route::get('/u', [UserController::class, 'index']);"), vec!["UserController"]);
    // Resource with a fully-qualified controller -> de-qualified.
    assert_eq!(
        names("<?php Route::resource('users', \\App\\Http\\Controllers\\PhotoController::class);"),
        vec!["PhotoController"]
    );
    // String action 'Controller@method'.
    assert_eq!(names("<?php Route::get('/home', 'HomeController@show');"), vec!["HomeController"]);
    // Group controller Route::controller(Controller::class).
    assert_eq!(
        names("<?php Route::controller(AdminController::class)->group(function () {});"),
        vec!["AdminController"]
    );
    // Invokable single-element array [Controller::class].
    assert_eq!(names("<?php Route::post('/x', [InvokableController::class]);"), vec!["InvokableController"]);
    // A closure action wires no controller.
    assert!(names("<?php Route::get('/x', fn () => 1);").is_empty());
}

#[test]
fn scan_routes_mints_route_path_nodes_and_serves() {
    let mut nodes: Vec<Node> = Vec::new();
    let mut edges: Vec<RawEdge> = Vec::new();
    scan_routes(
        "routes/api.php",
        "<?php Route::get('/users', [UserController::class, 'index']); Route::post('companies', 'CompanyController@store');",
        &mut nodes,
        &mut edges,
    );
    let routes: Vec<String> = nodes.iter().filter(|n| n.kind == "route").map(|n| n.name.clone()).collect();
    assert!(routes.contains(&"/users".to_string()));
    assert!(routes.contains(&"/companies".to_string())); // a path with no leading slash is normalised
    assert!(edges.iter().any(|e| e.relation == "serves"
        && e.source == "route:/users"
        && e.name.as_deref() == Some("UserController")));
}

#[test]
fn scan_routes_plural_resource_array_and_base_controller() {
    let mut nodes: Vec<Node> = Vec::new();
    let mut edges: Vec<RawEdge> = Vec::new();
    // The PLURAL array form binds several controllers in ONE call: every
    // `X::class` in it is a target, not just the first.
    let code = "<?php Route::apiResources([\n    'animals' => AnimalController::class,\n    'workflows' => \\App\\Http\\Controllers\\WorkflowController::class,\n    'tours' => TourController::class,\n]);";
    scan_routes("routes/api.php", code, &mut nodes, &mut edges);
    let targets: Vec<String> =
        edges.iter().filter(|e| e.relation == "routes-to").filter_map(|e| e.name.clone()).collect();
    assert!(targets.contains(&"AnimalController".to_string()));
    assert!(targets.contains(&"WorkflowController".to_string()));
    assert!(targets.contains(&"TourController".to_string()));
    assert_eq!(targets.len(), 3);

    // The singular `resources`/`apiResources` still work, and the base
    // `Controller` (a `Controller::class` reference / group base) is skipped.
    let mut n2: Vec<Node> = Vec::new();
    let mut e2: Vec<RawEdge> = Vec::new();
    scan_routes("routes/web.php", "<?php Route::resources(['photos' => PhotoController::class]); Route::get('/x', [Controller::class, 'i']);", &mut n2, &mut e2);
    let t2: Vec<String> = e2.iter().filter(|e| e.relation == "routes-to").filter_map(|e| e.name.clone()).collect();
    assert_eq!(t2, vec!["PhotoController"]);
    assert!(!t2.iter().any(|c| c == "Controller"));
}

#[test]
fn scan_route_attributes_positional_named_and_verbs() {
    let attrs = |code: &str| -> (Vec<Node>, Vec<RawEdge>) {
        let mut nodes: Vec<Node> = Vec::new();
        let mut edges: Vec<RawEdge> = Vec::new();
        scan_route_attributes("src/Controllers/FooController.php", code, &mut nodes, &mut edges);
        (nodes, edges)
    };
    let route = |nodes: &[Node]| -> Vec<String> {
        nodes.iter().filter(|n| n.kind == "route").map(|n| n.name.clone()).collect()
    };

    // phpMyAdmin positional form on the class, path first, methods array.
    let (n, e) = attrs("<?php\n#[Route('/check-relations', ['GET', 'POST'])]\nfinal class CheckRelationsController {}");
    assert_eq!(route(&n), vec!["/check-relations"]);
    assert!(e.iter().any(|x| x.relation == "serves"
        && x.source == "route:/check-relations"
        && x.name.as_deref() == Some("CheckRelationsController")));

    // Symfony named args, path reordered after methods -> still the path.
    let (n, _) = attrs("<?php\n#[Route(methods: ['GET'], path: '/x/y')]\nclass FooController {}");
    assert_eq!(route(&n), vec!["/x/y"]);

    // Verb attributes; a path with no leading slash is normalised.
    let (n, _) = attrs("<?php\n#[Get('/a')]\n#[Post('b')]\nclass FooController {}");
    let routes = route(&n);
    assert!(routes.contains(&"/a".to_string()));
    assert!(routes.contains(&"/b".to_string()));
}

#[test]
fn scan_route_attributes_captures_openapi_verbs_and_dedupes() {
    let mut nodes: Vec<Node> = Vec::new();
    let mut edges: Vec<RawEdge> = Vec::new();
    // `#[OA\Post(path: '/x')]` is a Swagger-PHP operation attribute -> a real
    // route; `#[OA\Schema(...)]` is not a verb, so it is ignored; the same
    // path twice mints one node.
    let code = "<?php\n#[OA\\Post(path: '/admin/authenticate', tags: ['auth'])]\n#[OA\\Schema(schema: 'Foo')]\n#[Get('/dup')]\n#[Post('/dup')]\nclass FooController {}";
    scan_route_attributes("src/Controllers/FooController.php", code, &mut nodes, &mut edges);
    let routes: Vec<String> = nodes.iter().filter(|n| n.kind == "route").map(|n| n.name.clone()).collect();
    assert!(routes.contains(&"/admin/authenticate".to_string())); // OpenAPI verb captured
    assert!(routes.contains(&"/dup".to_string()));
    assert_eq!(routes.iter().filter(|r| *r == "/dup").count(), 1); // de-duplicated
    assert!(!routes.iter().any(|r| r == "/Foo")); // OA\Schema is not a route
    assert!(edges.iter().any(|e| e.relation == "serves"
        && e.source == "route:/admin/authenticate"
        && e.name.as_deref() == Some("FooController")));
}

#[test]
fn scan_tables_migrations_and_query_builder() {
    let code = "<?php\nSchema::create('companies', function ($t) { $t->string('name'); });\nDB::table('users')->where('id', 1);";
    let mut nodes: Vec<Node> = Vec::new();
    let mut edges: Vec<RawEdge> = Vec::new();
    scan_tables("f.php", code, &mut nodes, &mut edges);
    let named = |rel: &str, name: &str| edges.iter().any(|e| e.relation == rel && e.name.as_deref() == Some(name));
    assert!(named("migrates", "companies"));
    assert!(named("uses-table", "users"));
    assert!(!named("migrates", "name")); // a column, not a table
    assert!(nodes.iter().any(|n| n.kind == "table" && n.name == "companies"));
    assert!(nodes.iter().any(|n| n.kind == "table" && n.name == "users"));
}

#[test]
fn a_route_with_a_variable_path_is_skipped() {
    let mut nodes: Vec<Node> = Vec::new();
    let mut edges: Vec<RawEdge> = Vec::new();
    // The method name is a literal, too, but not the first argument.
    let code = "<?php Route::get($path, [UserController::class, 'index']);";
    scan_routes("routes/web.php", code, &mut nodes, &mut edges);
    assert!(!nodes.iter().any(|n| n.kind == "route"));
    assert!(!edges.iter().any(|e| e.relation == "serves"));
    // Neither is a path that is put together.
    let code = "<?php Route::get('/a' . $rest, [UserController::class, 'index']);";
    scan_routes("routes/web.php", code, &mut nodes, &mut edges);
    assert!(!nodes.iter().any(|n| n.kind == "route"));
    let code = "<?php Route::get( '/users' , [UserController::class, 'index']);";
    scan_routes("routes/web.php", code, &mut nodes, &mut edges);
    assert!(nodes.iter().any(|n| n.id == "route:/users"));
    assert!(edges.iter().any(|e| e.relation == "serves" && e.source == "route:/users"));
}

fn raw_tables(code: &str) -> Vec<String> {
    let mut nodes: Vec<Node> = Vec::new();
    let mut edges: Vec<RawEdge> = Vec::new();
    scan_raw_sql_tables("f.php", code, &mut nodes, &mut edges);
    assert!(edges.iter().all(|e| e.relation == "uses-table" && e.source == "f.php"));
    assert!(nodes.iter().all(|n| n.kind == "table" && n.id == format!("table:{}", n.name)));
    edges.into_iter().filter_map(|e| e.name).collect()
}

#[test]
fn queries_name_their_tables() {
    assert_eq!(
        raw_tables("<?php $q = \"SELECT * FROM users u JOIN `posts` p ON p.id = u.id\";"),
        vec!["users", "posts"]
    );
    assert_eq!(raw_tables("<?php $q = 'INSERT INTO logs (a) VALUES (1)';"), vec!["logs"]);
    assert_eq!(raw_tables("<?php $q = 'UPDATE llx_stock SET a = 1';"), vec!["stock"]);
    // A prefix that is concatenated in stands before the name.
    assert_eq!(raw_tables("<?php $q = \"DELETE FROM \".MAIN_DB_PREFIX.\"facture WHERE a = 1\";"), vec!["facture"]);
    assert_eq!(raw_tables("<?php $q = 'FROM ' . $db->prefix() . 'societe';"), vec!["societe"]);
}

#[test]
fn what_is_no_table_of_a_query_is_skipped() {
    // a dynamic name, the end of a statement, part of a word, and a column
    assert!(raw_tables("<?php $q = \"SELECT * FROM $table\";").is_empty());
    assert!(raw_tables("<?php $q = 'SELECT 1 FROM '; $r = 'users';").is_empty());
    assert!(raw_tables("<?php $q = 'REFROM users'; FROMAGE; FROM(users);").is_empty());
    assert_eq!(
        raw_tables("<?php $q = 'INSERT INTO t (a) VALUES (1) ON DUPLICATE KEY UPDATE a = 2';"),
        vec!["t"]
    );
    assert!(raw_tables("<?php $q = 'a INT REFERENCES b ON UPDATE CASCADE';").is_empty());
    assert_eq!(raw_tables("<?php $q = 'SELECT KEY FROM options';"), vec!["options"]);
    // prose is not in upper case
    assert!(raw_tables("<?php // take the name from users").is_empty());
}

#[test]
fn a_data_migration_reaches_the_table_of_its_model() {
    let code = "<?php\nuse App\\Models\\InvoiceLine;\nuse App\\Models\\Company;\nuse App\\Support\\Str;\nInvoiceLine::create(['a' => 1]); Company::class; Str::random(3);";
    let mut edges: Vec<RawEdge> = Vec::new();
    scan_data_migrations("database/seeders/LineSeeder.php", code, &mut edges);
    let told: Vec<_> = edges.iter().map(|e| (e.source.as_str(), e.relation, e.name.as_deref())).collect();
    assert_eq!(told, vec![("database/seeders/LineSeeder.php", "migrates", Some("invoice_lines"))]);
    // Another file that calls the model does not fill its table.
    let mut other: Vec<RawEdge> = Vec::new();
    scan_data_migrations("app/Service.php", code, &mut other);
    assert!(other.is_empty());
}
