//! PHP files.

use plouf_rs::model::{Node, RawEdge};
use plouf_rs::php::phpdoc_bindings;

fn extract(rel: &str, code: &str) -> (Vec<Node>, Vec<RawEdge>) {
    plouf_rs::php::extract(rel, "f.php", code)
}

fn has_call(edges: &[RawEdge], name: &str, recv: Option<&str>) -> bool {
    edges
        .iter()
        .any(|e| e.relation == "calls" && e.name.as_deref() == Some(name) && e.recv_type.as_deref() == recv)
}

#[test]
fn php_extracts_class_methods_and_heritage() {
    let code = "<?php\nclass Foo extends Bar implements Baz {\n    public function m(): int { return $this->n(); }\n    public function n(): int { return 1; }\n}";
    let (nodes, edges) = extract("a.php", code);
    assert!(nodes.iter().any(|n| n.kind == "class" && n.name == "Foo"));
    assert!(nodes.iter().any(|n| n.kind == "method" && n.name == "m"));
    assert!(edges.iter().any(|e| e.relation == "extends" && e.name.as_deref() == Some("Bar")));
    assert!(edges.iter().any(|e| e.relation == "implements" && e.name.as_deref() == Some("Baz")));
    assert!(has_call(&edges, "n", Some("Foo")));
}

#[test]
fn is_class_name_rejects_code_fragments() {
    assert!(plouf_rs::php::is_class_name("App\\Models\\Foo"));
    assert!(plouf_rs::php::is_class_name("FooRule"));
    assert!(!plouf_rs::php::is_class_name("->default(")); // the covers false-positive
    assert!(!plouf_rs::php::is_class_name("foo()"));
    assert!(!plouf_rs::php::is_class_name(""));
}

#[test]
fn require_spec_keeps_only_php_targets() {
    // require/include always load a PHP file; garbage / non-.php is dropped.
    assert_eq!(plouf_rs::php::require_spec(" 'helpers.php'").as_deref(), Some("./helpers.php"));
    assert_eq!(plouf_rs::php::require_spec(" __DIR__ . '/../app.php'").as_deref(), Some("./../app.php"));
    assert_eq!(plouf_rs::php::require_spec(" ']'"), None);
    assert_eq!(plouf_rs::php::require_spec(" '../assets/x.css'"), None); // not a PHP include
    assert_eq!(plouf_rs::php::require_spec(" $dynamic . 'x.php'"), None); // dynamic base
}

#[test]
fn php_extracts_enum_with_const_member() {
    // An enum with a const member (a shape some tree-sitter-php grammars drop).
    let code = "<?php\nenum Color: string {\n    case Red = 'r';\n    private const MAP = ['r' => 1];\n    public function label(): int { return self::MAP[$this->value] ?? 0; }\n}";
    let (nodes, _) = extract("a.php", code);
    assert!(nodes.iter().any(|n| n.kind == "enum" && n.name == "Color"));
    assert!(nodes.iter().any(|n| n.kind == "method" && n.name == "label"));
}

#[test]
fn php_extracts_function_and_use_import() {
    let code = "<?php\nuse App\\Models\\User;\nfunction helper(): void { strlen('x'); }";
    let (nodes, edges) = extract("a.php", code);
    assert!(nodes.iter().any(|n| n.kind == "function" && n.name == "helper"));
    assert!(edges.iter().any(|e| e.relation == "imports" && e.name.as_deref() == Some("App\\Models\\User")));
}

#[test]
fn php_binds_typed_param_for_member_call_receiver() {
    let code = "<?php\nfunction f(Foo $x): void { $x->bar(); }";
    let (_, edges) = extract("a.php", code);
    assert!(has_call(&edges, "bar", Some("Foo")));
}

#[test]
fn php_records_byte_spans_on_symbols() {
    let code = "<?php\nfunction foo(): void {}";
    let (nodes, _) = extract("a.php", code);
    let foo = nodes.iter().find(|n| n.name == "foo").unwrap();
    assert!(foo.end > foo.start);
}

fn has_named(edges: &[RawEdge], relation: &str, name: &str) -> bool {
    edges.iter().any(|e| e.relation == relation && e.name.as_deref() == Some(name))
}

#[test]
fn extracts_eloquent_relations_with_kind() {
    let code = "<?php\nclass Invoice extends Model {\n    public function company() { return $this->belongsTo(Company::class); }\n    public function lines() { return $this->hasMany(InvoiceLine::class, 'invoice_id'); }\n    public function tags() { return $this->belongsToMany(Tag::class); }\n}";
    let (_, edges) = extract("app/Models/Invoice.php", code);
    assert!(has_named(&edges, "belongsTo", "Company"));
    assert!(has_named(&edges, "hasMany", "InvoiceLine"));
    assert!(has_named(&edges, "belongsToMany", "Tag"));
}

#[test]
fn links_model_to_table_explicit_and_by_convention() {
    // Explicit $table wins.
    let (nodes, edges) = extract("app/Models/Foo.php", "<?php\nclass Foo extends Model {\n    protected $table = 'custom_foo';\n}");
    assert!(nodes.iter().any(|n| n.kind == "table" && n.name == "custom_foo"));
    assert!(has_named(&edges, "table", "custom_foo"));
    // Convention: Company -> companies, InvoiceLine -> invoice_lines, Category -> categories.
    let (_, e1) = extract("m.php", "<?php\nclass Company extends Model {}");
    assert!(has_named(&e1, "table", "companies"));
    let (_, e2) = extract("m.php", "<?php\nclass InvoiceLine extends Model {}");
    assert!(has_named(&e2, "table", "invoice_lines"));
    let (_, e3) = extract("m.php", "<?php\nclass Category extends Authenticatable {}");
    assert!(has_named(&e3, "table", "categories"));
    // A non-model class gets no table link.
    let (_, e4) = extract("s.php", "<?php\nclass PriceService { public function go() {} }");
    assert!(!e4.iter().any(|e| e.relation == "table"));
}

#[test]
fn links_migration_to_table_via_schema_calls() {
    let code = "<?php\nreturn new class extends Migration {\n    public function up(): void {\n        Schema::create('companies', function (Blueprint $table) { $table->string('name'); });\n        Schema::table('users', function (Blueprint $table) { $table->string('email'); });\n    }\n};";
    let (nodes, edges) = extract("database/migrations/2024_create.php", code);
    assert!(has_named(&edges, "migrates", "companies"));
    assert!(has_named(&edges, "migrates", "users"));
    assert!(nodes.iter().any(|n| n.kind == "table" && n.name == "companies"));
    // The column name 'name' must NOT be mistaken for a table.
    assert!(!has_named(&edges, "migrates", "name"));
}

#[test]
fn registers_custom_twig_functions() {
    let code = "<?php\nclass Ext {\n  public function getFunctions() {\n    return [\n      new TwigFunction('getIcon', [Util::class, 'getIcon']),\n      new TwigFilter('formatBytes', 'format_bytes'),\n    ];\n  }\n}";
    let (nodes, edges) = extract("app/TwigExt.php", code);
    assert!(nodes.iter().any(|n| n.kind == "twig-function" && n.name == "getIcon"));
    assert!(nodes.iter().any(|n| n.kind == "twig-function" && n.name == "formatBytes"));
    assert!(has_named(&edges, "defines-fn", "getIcon"));
    assert!(has_named(&edges, "defines-fn", "formatBytes"));
}

#[test]
fn links_require_include_file_dependencies() {
    let code = "<?php\nrequire __DIR__ . '/../bootstrap/app.php';\ninclude_once 'helpers.php';\nrequire_once dirname(__FILE__) . '/config.php';\nrequire $dynamic . '/x.php';\ninclude '/etc/abs.php';";
    let (_, edges) = extract("app/kernel.php", code);
    assert!(has_named(&edges, "requires", "./../bootstrap/app.php"));
    assert!(has_named(&edges, "requires", "./helpers.php"));
    assert!(has_named(&edges, "requires", "./config.php"));
    // dynamic ($var) and absolute filesystem paths are skipped
    assert!(!edges.iter().any(|e| e.relation == "requires" && e.name.as_deref() == Some("./x.php")));
    assert!(!edges.iter().any(|e| e.relation == "requires" && e.name.as_deref().is_some_and(|n| n.contains("abs"))));
}

#[test]
fn require_keyword_in_comment_string_or_identifier_is_not_an_edge() {
    // The old byte-scanner matched `require`/`include` anywhere in the source
    // -- inside comments, string literals, and const/var names -- and grabbed
    // the next `.php` string as a bogus dependency. The CST walker sees only
    // real constructs, so none of these lines produce a `requires` edge, yet
    // the genuine `require` on the last line still does.
    let code = "<?php\n\
        // TODO: this require in a comment must be ignored, see config/foo.php\n\
        $flag = 'skip require-dev when building bar.php';\n\
        const PARAM_INCLUDE = 'include';\n\
        $includeParameters = ['a.php'];\n\
        require __DIR__ . '/real.php';\n";
    let (_, edges) = extract("app/Foo.php", code);
    let reqs: Vec<&str> = edges
        .iter()
        .filter(|e| e.relation == "requires")
        .filter_map(|e| e.name.as_deref())
        .collect();
    assert_eq!(reqs, vec!["./real.php"], "only the real construct is a dependency");
}

#[test]
fn marks_file_scope_return_as_config_not_empty() {
    // A config/manifest file returns a value at file scope -> `returns` marker.
    let (_, cfg) = extract("config/app.php", "<?php\nreturn [\n  'name' => 'X',\n  'debug' => false,\n];");
    assert!(has_named(&cfg, "returns", "config/app.php"), "config file gets a returns marker");

    // A return *inside* a method is not a file-scope return -> no marker.
    let (_, cls) = extract("app/Foo.php", "<?php\nclass Foo {\n  public function m(): int { return 1; }\n}");
    assert!(!cls.iter().any(|e| e.relation == "returns"), "a method return is not a config marker");
}

#[test]
fn covers_closures_statics_and_duplicate_names() {
    let code = r"<?php
        function a() {}
        function a() {}
        class Base { public function x() {} }
        class P extends Base {
            public function m() { return parent::x(); }
            public function n() {
                $f = function () { return 1; };
                $g = fn () => 2;
                return static::y();
            }
        }
    ";
    let (nodes, edges) = extract("d.php", code);
    assert_eq!(nodes.iter().filter(|n| n.name == "a" && n.kind == "function").count(), 2); // id collision -> ~2
    assert!(has_call(&edges, "x", Some("Base")), "parent:: targets the base class, not self");
    assert!(has_call(&edges, "y", Some("P")), "static:: targets the current class");
    assert!(nodes.iter().any(|n| n.name == "f")); // closure named from its `$f =` assignment
}

#[test]
fn new_expression_links_the_instantiated_class() {
    let code = r"<?php
        class WidgetDto {}
        class Factory {
            public function build($cls) {
                $a = new WidgetDto();
                $b = new $cls();
                return $a;
            }
        }
    ";
    let (_, edges) = extract("f.php", code);
    let inst: Vec<&str> =
        edges.iter().filter(|e| e.relation == "instantiates").filter_map(|e| e.name.as_deref()).collect();
    assert!(inst.contains(&"WidgetDto"), "new WidgetDto() -> instantiates the class");
    assert!(!inst.iter().any(|n| n.contains("cls")), "new $cls() is dynamic -> skipped");
}

#[test]
fn links_phpunit_covers_to_targets() {
    let code = "<?php\n#[CoversClass(Invoice::class)]\n#[CoversFunction('array_flatten')]\n/**\n * @coversDefaultClass \\App\\Services\\Billing\n */\nclass InvoiceTest extends TestCase {}";
    let (_, edges) = extract("tests/Feature/InvoiceTest.php", code);
    assert!(has_named(&edges, "covers", "Invoice")); // CoversClass(X::class)
    assert!(has_named(&edges, "covers", "array_flatten")); // CoversFunction('fn')
    assert!(has_named(&edges, "covers", "Billing")); // @coversDefaultClass (de-qualified)
}

#[test]
fn class_constant_access_links_the_owning_class() {
    // A route/enum registry read only through its members must not look dead.
    let code = r"<?php
        enum Status { case Open; }
        class Route { const IMPORT = 'import'; }
        class Svc {
            public function run() {
                $a = Route::IMPORT;
                $b = Status::Open;
                $c = Route::class;
                return [$a, $b, $c];
            }
        }
    ";
    let (_, edges) = extract("f.php", code);
    let used: Vec<&str> =
        edges.iter().filter(|e| e.relation == "uses-const").filter_map(|e| e.name.as_deref()).collect();
    assert!(used.contains(&"Route"), "Route::IMPORT / Route::class -> uses-const Route");
    assert!(used.contains(&"Status"), "Status::Open -> uses-const Status");
}

#[test]
fn local_new_var_types_the_receiver_and_links_the_constructor() {
    // The dominant procedural idiom: `$x = new Class(); $x->method()`. The
    // local var is typed from the `new`, and `new` itself wires `__construct`.
    let code = r"<?php
        class Facture {
            public function __construct($db) {}
            public function fetch($id) {}
            public function getNomUrl() {}
        }
        function show($db) {
            $f = new Facture($db);
            $f->fetch(3);
            echo $f->getNomUrl();
        }
    ";
    let (_, edges) = extract("a.php", code);
    assert!(has_call(&edges, "__construct", Some("Facture")), "new Facture() -> wires the constructor");
    assert!(has_call(&edges, "fetch", Some("Facture")), "$f->fetch() via local new-var type");
    assert!(has_call(&edges, "getNomUrl", Some("Facture")), "$f->getNomUrl() via local new-var type");
    // `new self()` inside a method types against the current class.
    let (_, e2) = extract("b.php", "<?php\nclass P {\n  public static function make() { $x = new self(); return $x->go(); }\n  public function go() {}\n}");
    assert!(has_call(&e2, "go", Some("P")), "new self() -> current class");
}

#[test]
fn phpdoc_param_types_the_receiver_when_the_native_hint_is_absent() {
    // Older Dolibarr signatures document a receiver's class in phpdoc without a
    // native type hint; that `@param Class $x` must still type `$x->method()`.
    let code = r"<?php
        class Facture {
            public function fetch($id) {}
            public function delete() {}
        }
        /**
         * @param  Facture  $object  the invoice
         * @param  int      $mode
         */
        function handle($object, $mode) {
            $object->fetch(1);
            $object->delete();
        }
        class Svc {
            /** @param Facture $f Bill */
            public function run($f) { $f->delete(); }
        }
    ";
    let (_, edges) = extract("a.php", code);
    assert!(has_call(&edges, "fetch", Some("Facture")), "@param on a function");
    assert!(has_call(&edges, "delete", Some("Facture")), "@param on a function (2nd call)");
    assert!(has_call(&edges, "delete", Some("Facture")), "@param on a method");
    // A native hint must win over a contradictory phpdoc line.
    let (_, e2) = extract("b.php", "<?php\nclass A { public function m() {} }\nclass B { public function m() {} }\n/** @param B $x */\nfunction f(A $x) { $x->m(); }");
    assert!(has_call(&e2, "m", Some("A")), "native hint beats phpdoc");
    assert!(!has_call(&e2, "m", Some("B")), "phpdoc does not override a native hint");
}

#[test]
fn phpdoc_bindings_parses_only_class_typed_tags() {
    let doc = "/**\n * @param Facture $a\n * @param int $b\n * @param Foo|Bar $c\n * @var  \\App\\User  $d\n * @return void\n */";
    let got = phpdoc_bindings(doc);
    assert!(got.contains(&("$a".to_string(), "Facture".to_string())), "class @param");
    assert!(got.contains(&("$d".to_string(), "User".to_string())), "de-qualified @var");
    assert!(!got.iter().any(|(v, _)| v == "$b"), "int is a scalar, not a class");
    assert!(!got.iter().any(|(v, _)| v == "$c"), "a union is not a single class");
}

#[test]
fn typed_property_receiver_resolves_the_method_owner() {
    // `$this->prop->method()` resolves through the property's declared type --
    // from a plain declaration, a promoted constructor param, or a `public`
    // property. An untyped property carries no receiver.
    let code = r"<?php
        class Db { public function query($s) {} }
        class Mailer { public function send() {} }
        class Logger { public function info($m) {} }
        class Service {
            private Db $db;
            public Mailer $mail;
            private $untyped;
            public function __construct(private Logger $log) {}
            public function run() {
                $this->db->query('x');
                $this->mail->send();
                $this->log->info('y');
                $this->untyped->whatever();
            }
        }
    ";
    let (_, edges) = extract("a.php", code);
    assert!(has_call(&edges, "query", Some("Db")), "declared `private Db $db`");
    assert!(has_call(&edges, "send", Some("Mailer")), "`public Mailer $mail`");
    assert!(has_call(&edges, "info", Some("Logger")), "promoted `private Logger $log`");
    assert!(has_call(&edges, "whatever", None), "untyped property -> no receiver");
}

#[test]
fn first_class_callables_emit_the_same_call_edge() {
    // `foo(...)` / `$this->m(...)` / `Class::m(...)` reference a callable without
    // invoking it -- a method only ever passed this way must not look dead.
    let code = r"<?php
        class Base { public function help() {} }
        class Svc extends Base {
            public function run() {
                $fn = foo(...);
                $m = $this->scale(...);
                $s = self::help(...);
                $st = Base::help(...);
                return [$fn, $m, $s, $st];
            }
            public function scale() {}
        }
        function foo() {}
    ";
    let (_, edges) = extract("f.php", code);
    assert!(has_call(&edges, "foo", None), "foo(...) -> calls foo");
    assert!(has_call(&edges, "scale", Some("Svc")), "$this->scale(...) -> calls Svc::scale");
    assert!(has_call(&edges, "help", Some("Svc")), "self::help(...) targets the current class");
    assert!(has_call(&edges, "help", Some("Base")), "Base::help(...) targets the named class");
}

#[test]
fn equal_names_get_distinct_ids() {
    let code = "<?php\nif (true) { function f() {} } else { function f() {} }\n$a = function () {}; $a = function () {};";
    let (nodes, edges) = extract("x.php", code);
    let ids: Vec<&str> = nodes.iter().filter(|n| n.kind == "function").map(|n| n.id.as_str()).collect();
    assert_eq!(ids, vec!["x.php#f", "x.php#f~2", "x.php.a", "x.php.a~2"]);
    for id in ids {
        assert!(edges.iter().any(|e| e.relation == "contains" && e.target_id.as_deref() == Some(id)), "{id}");
    }
}

#[test]
fn scopes_end_with_their_classes_and_functions() {
    let code = "<?php\nclass A { public function m() { inner(); } }\nouter();";
    let (_, edges) = extract("x.php", code);
    let source = |name: &str| {
        edges.iter().find(|e| e.relation == "calls" && e.name.as_deref() == Some(name)).map(|e| e.source.clone())
    };
    assert_eq!(source("inner").as_deref(), Some("x.php#A.m"));
    assert_eq!(source("outer").as_deref(), Some("x.php"));
}

#[test]
fn the_spans_of_php_symbols_are_bytes() {
    let code = "<?php /* é */ function f() { return 'é'; }";
    let (nodes, _) = extract("x.php", code);
    let f = nodes.iter().find(|n| n.name == "f").unwrap();
    assert_eq!(&code[f.start as usize..f.end as usize], "function f() { return 'é'; }");
}

#[test]
fn a_documented_variable_ends_with_its_name() {
    assert_eq!(
        phpdoc_bindings("/**\n * @param Foo $été1-x\n * @var \\App\\Bar $b, the bar\n * @param int $n\n */"),
        vec![("$été1".to_string(), "Foo".to_string()), ("$b".to_string(), "Bar".to_string())]
    );
}

#[test]
fn a_file_shows_its_queries_and_its_data_migrations() {
    let code = "<?php\nuse App\\Models\\Company;\n$q = 'SELECT * FROM users';\nCompany::insert([]);";
    let (nodes, edges) = extract("database/migrations/fill.php", code);
    assert!(nodes.iter().any(|n| n.kind == "table" && n.id == "table:users"));
    assert!(has_named(&edges, "uses-table", "users"));
    assert!(has_named(&edges, "migrates", "companies"));
}
