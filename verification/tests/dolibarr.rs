//! Dolibarr extension points.

use plouf_rs::dolibarr::scan;
use plouf_rs::model::{Node, RawEdge};

fn run(rel: &str, base: &str, code: &str) -> (Vec<Node>, Vec<RawEdge>) {
    let mut nodes = Vec::new();
    let mut edges = Vec::new();
    scan(rel, base, code, &mut nodes, &mut edges);
    (nodes, edges)
}

fn edge_targets<'a>(edges: &'a [RawEdge], relation: &str) -> Vec<&'a str> {
    edges.iter().filter(|e| e.relation == relation).filter_map(|e| e.name.as_deref()).collect()
}

#[test]
fn permissions_from_has_right_with_two_and_three_levels() {
    let code = r"<?php
        if (!$user->hasRight('inventairerapide', 'stock', 'read')) {
            throw new RestException(403);
        }
        if (!DolibarrApiAccess::$user->hasRight('produit', 'lire')) {
            accessforbidden();
        }
        // dynamic module -> skipped
        if (!$user->hasRight($module, 'read')) {
            return;
        }
    ";
    let (nodes, edges) = run("acme/api.php", "api.php", code);
    let perms = edge_targets(&edges, "checks-permission");
    assert!(perms.contains(&"inventairerapide.stock.read"), "three-level right");
    assert!(perms.contains(&"produit.lire"), "two-level right");
    assert_eq!(perms.len(), 2, "the dynamic module call is skipped");
    assert!(nodes.iter().any(|n| n.kind == "permission" && n.id == "right:produit.lire"));
}

#[test]
fn permissions_from_legacy_rights_property() {
    let code = r"<?php
        if ($user->rights->widgetshop->read) {
            // two-level property form
        }
        if (empty($user->rights->stock->import->create)) {
            accessforbidden();
        }
        // a bare $rights local variable must NOT be read as a permission
        if ($rights->something->else) {
            return;
        }
    ";
    let (nodes, edges) = run("acme/widget_list.php", "widget_list.php", code);
    let perms = edge_targets(&edges, "checks-permission");
    assert!(perms.contains(&"widgetshop.read"), "two-level property right");
    assert!(perms.contains(&"stock.import.create"), "three-level property right");
    assert!(!perms.contains(&"something.else"), "a bare $rights var is not a permission");
    assert!(nodes.iter().any(|n| n.kind == "permission" && n.id == "right:stock.import.create"));
}

#[test]
fn object_fields_link_related_class_and_dictionary_table() {
    let code = r"<?php
        class Invoice extends CommonObject
        {
            public $table_element = 'facture';
            public $fields = array(
                'rowid'   => array('type' => 'integer'),
                'fk_soc'  => array('type' => 'integer:Societe:societe/class/societe.class.php:1:filter'),
                'country' => array('type' => 'sellist:c_country:label:rowid'),
            );
        }
    ";
    let (nodes, edges) = run("acme/class/invoice.class.php", "invoice.class.php", code);
    // `integer:Class:path` -> a relates-to edge to the class (a belongs-to).
    assert!(edge_targets(&edges, "relates-to").contains(&"Societe"), "FK field relation");
    // a plain `integer` type carries no relation.
    assert!(!edge_targets(&edges, "relates-to").contains(&"integer"));
    // `sellist:Table` -> a uses-table edge to the dictionary table.
    assert!(edge_targets(&edges, "uses-table").contains(&"c_country"), "sellist table");
    assert!(nodes.iter().any(|n| n.kind == "table" && n.id == "table:c_country"));
}

#[test]
fn triggers_raise_from_call_and_handle_from_switch() {
    let emitter = r"<?php
        class Widget extends CommonObject
        {
            public function validate($user)
            {
                $this->call_trigger('WIDGET_VALIDATE', $user);
            }
        }
    ";
    let (_, emit_edges) = run("acme/class/widget.class.php", "widget.class.php", emitter);
    assert!(edge_targets(&emit_edges, "raises-trigger").contains(&"WIDGET_VALIDATE"));

    let handler = r"<?php
        class InterfaceAcme extends DolibarrTriggers
        {
            public function runTrigger($action, $object, User $user, Translate $langs, Conf $conf)
            {
                switch ($action) {
                    case 'BILL_VALIDATE':
                    case 'LINEBILL_INSERT':
                        // a nested switch on the element must NOT be a trigger
                        switch ($object->element) {
                            case 'facturedet':
                                break;
                        }
                        break;
                }
                return 0;
            }
        }
    ";
    let (nodes, handle_edges) = run("acme/core/triggers/interface_99_modAcme_Acme.class.php", "interface_99_modAcme_Acme.class.php", handler);
    let hits = edge_targets(&handle_edges, "handles-trigger");
    assert!(hits.contains(&"BILL_VALIDATE"));
    assert!(hits.contains(&"LINEBILL_INSERT"));
    assert!(!hits.contains(&"facturedet"), "lower-case element case is not a trigger");
    assert!(nodes.iter().any(|n| n.kind == "trigger" && n.id == "trigger:BILL_VALIDATE"));
}

#[test]
fn hooks_fire_from_executehooks_and_handle_from_actions_class() {
    let firer = r"<?php
        $parameters = array('id' => $object->id);
        $reshook = $hookmanager->executeHooks('formObjectOptions', $parameters, $object, $action);
    ";
    let (_, fire_edges) = run("acme/acme_card.php", "acme_card.php", firer);
    assert!(edge_targets(&fire_edges, "fires-hook").contains(&"formObjectOptions"));

    let handler = r"<?php
        class ActionsAcme
        {
            public function formObjectOptions($parameters, &$object, &$action, $hookmanager)
            {
                return 0;
            }

            public function computeSomethingPrivate($value)
            {
                return $value * 2;
            }
        }
    ";
    let (nodes, handle_edges) = run("acme/class/actions_acme.class.php", "actions_acme.class.php", handler);
    let hits = edge_targets(&handle_edges, "handles-hook");
    assert!(hits.contains(&"formObjectOptions"), "a known hook method handles the hook");
    assert!(!hits.contains(&"computeSomethingPrivate"), "a plain helper is not a hook");
    assert!(nodes.iter().any(|n| n.kind == "hook" && n.id == "hook:formObjectOptions"));
}

#[test]
fn hook_handler_recognises_pdf_login_and_family_methods() {
    let code = r"<?php
        class ActionsX extends CommonHookActions
        {
            public function formObjectOptions($parameters, &$object, &$action) { return 0; }
            public function pdf_writelinedesc($parameters, &$pdf) { return 0; }
            public function afterLogin($parameters, &$user) { return 0; }
            public function dashboardWidgets($parameters) { return 0; }
            public function computeStuff($value) { return $value + 1; }
        }
    ";
    let (_, edges) = run("acme/class/actions_x.class.php", "actions_x.class.php", code);
    let hooks = edge_targets(&edges, "handles-hook");
    assert!(hooks.contains(&"formObjectOptions"), "curated hook");
    assert!(hooks.contains(&"pdf_writelinedesc"), "pdf_ document-hook family");
    assert!(hooks.contains(&"afterLogin"), "core-fired login hook");
    assert!(hooks.contains(&"dashboardWidgets"), "dashboard widget family");
    assert!(!hooks.contains(&"computeStuff"), "a plain helper is not a hook");
}

#[test]
fn cronjobs_schedule_the_target_class() {
    let code = r"<?php
        class modWidgetshop extends DolibarrModules
        {
            public function __construct($db)
            {
                $this->rights_class = 'widgetshop';
                $this->cronjobs = array(
                    0 => array(
                        'label' => 'Nightly sync',
                        'jobtype' => 'method',
                        'class' => '/widgetshop/class/batchwidget.class.php',
                        'objectname' => 'BatchWidget',
                        'method' => 'doScheduledJob',
                        'frequency' => 1,
                    ),
                );
            }
        }
    ";
    let (_, edges) = run("widgetshop/core/modules/modWidgetshop.class.php", "modWidgetshop.class.php", code);
    assert!(edge_targets(&edges, "schedules").contains(&"BatchWidget"), "cron target class linked");
}

#[test]
fn common_object_links_its_table_element() {
    let code = r"<?php
        class AcmeWidget extends CommonObject
        {
            public $element = 'acmewidget';
            public $table_element = 'acme_widget';
            public $table_element_line = 'acme_widget_line';
        }
    ";
    let (nodes, edges) = run("acme/class/acmewidget.class.php", "acmewidget.class.php", code);
    // table_element resolves; the longer table_element_line must not shadow it.
    assert_eq!(edge_targets(&edges, "table"), vec!["acme_widget"]);
    assert!(nodes.iter().any(|n| n.kind == "table" && n.id == "table:acme_widget"));
}

#[test]
fn module_descriptor_mints_a_module_node() {
    let code = r"<?php
        class modAcme extends DolibarrModules
        {
            public function __construct($db)
            {
                $this->numero = 436150;
                $this->rights_class = 'acme';
                $this->family = 'products';
                $this->depends = array('modProduct', 'modStock');
            }
        }
    ";
    let (nodes, edges) = run("acme/core/modules/modAcme.class.php", "modAcme.class.php", code);
    assert!(nodes.iter().any(|n| n.kind == "module" && n.id == "module:acme"));
    assert_eq!(edge_targets(&edges, "declares-module"), vec!["acme"]);
    // depends -> a dependency edge per required module descriptor class.
    let deps = edge_targets(&edges, "depends-on");
    assert!(deps.contains(&"modProduct") && deps.contains(&"modStock"), "module deps: {deps:?}");
}

#[test]
fn api_routes_from_url_tag_and_auto_routing() {
    let code = r"<?php
        /**
         * @access protected
         * @class DolibarrApiAccess {@requires user,external}
         */
        class Products extends DolibarrApi
        {
            /**
             * Get a product by ref
             *
             * @param  string $ref  Reference
             * @url GET ref/{ref}
             */
            public function getByRef($ref)
            {
                return $this->_fetch(0, $ref);
            }

            public function get($id, $includestock = 0)
            {
                return $this->_fetch($id);
            }

            public function index($sortfield = 't.ref')
            {
                return array();
            }

            public function post($request_data = null)
            {
                return 1;
            }

            public function delete($id)
            {
                return 1;
            }

            private function _fetch($id, $ref = '')
            {
                return null;
            }
        }
    ";
    let (nodes, edges) = run("product/class/api_products.class.php", "api_products.class.php", code);
    let routes: std::collections::HashSet<&str> =
        nodes.iter().filter(|n| n.kind == "route").map(|n| n.id.as_str()).collect();
    assert!(routes.contains("route:/products/ref/{ref}"), "explicit @url route");
    assert!(routes.contains("route:/products/{id}"), "auto GET/DELETE with a required id segment");
    assert!(routes.contains("route:/products"), "auto index/post at the resource root");
    assert!(!routes.iter().any(|r| r.contains("fetch")), "the private _fetch is not a route");
    // Every route serves the implementing method node (not just the class).
    let serves = edge_targets(&edges, "serves");
    assert!(!serves.is_empty(), "routes serve something");
    assert!(serves.iter().all(|t| t.contains("#Products.")), "serves the method: {serves:?}");
    assert!(serves.iter().any(|t| t.ends_with("#Products.getByRef")), "explicit @url -> getByRef");
    // Layer A role gate from the class `@requires` tag.
    let roles = edge_targets(&edges, "requires-role");
    assert!(roles.contains(&"user") && roles.contains(&"external"), "api roles: {roles:?}");
    assert!(nodes.iter().any(|n| n.kind == "role" && n.id == "role:user"));
}

#[test]
fn dol_include_once_emits_a_requires_edge() {
    let code = r"<?php
        dol_include_once('/acme/class/widget.class.php');
        dol_include_once($dynamicPath);
    ";
    let (_, edges) = run("acme/widget_card.php", "widget_card.php", code);
    let reqs = edge_targets(&edges, "dol-requires");
    assert_eq!(reqs, vec!["/acme/class/widget.class.php"], "only the static include");
}

#[test]
fn lang_file_defines_keys_as_uses_lang() {
    let lang = "# widgetshop language file\n\
        WidgetLabel = Widget\n\
        Widget.status.draft = Draft\n\
        \n\
        EmptyValueKept =\n";
    let edges = plouf_rs::dolibarr::scan_lang_file("langs/en_US/widgetshop.lang", lang);
    let keys: Vec<&str> = edges.iter().filter(|e| e.relation == "uses-lang").filter_map(|e| e.name.as_deref()).collect();
    assert!(keys.contains(&"WidgetLabel"));
    assert!(keys.contains(&"Widget.status.draft"), "dotted keys kept");
    assert!(keys.contains(&"EmptyValueKept"), "a key with an empty value still defines the key");
    // the comment and blank line define nothing.
    assert_eq!(keys.len(), 3);
}

#[test]
fn sql_ddl_links_created_and_altered_tables() {
    let sql = r"
        CREATE TABLE llx_widgetshop_widget (
            rowid integer AUTO_INCREMENT PRIMARY KEY,
            ref   varchar(128) NOT NULL
        );
        ALTER TABLE llx_widgetshop_widget ADD INDEX idx_ref (ref);
        create table if not exists llx_widgetshop_line (fk_widget integer);
    ";
    let mut nodes = Vec::new();
    let mut edges = Vec::new();
    plouf_rs::dolibarr::scan_sql_ddl("widgetshop/sql/llx_widgetshop_widget.sql", sql, &mut nodes, &mut edges);
    let tables: std::collections::HashSet<&str> =
        edges.iter().filter(|e| e.relation == "migrates").filter_map(|e| e.name.as_deref()).collect();
    // CREATE and ALTER on the same table both link it; llx_ prefix stripped.
    assert!(tables.contains("widgetshop_widget"), "CREATE + ALTER");
    assert!(tables.contains("widgetshop_line"), "lower-case create table if not exists");
    assert!(nodes.iter().any(|n| n.kind == "table" && n.id == "table:widgetshop_widget"));
}

#[test]
fn non_dolibarr_php_yields_nothing() {
    let code = r"<?php
        class PlainService
        {
            public function handle(array $items): int
            {
                return count($items);
            }
        }
    ";
    let (nodes, edges) = run("app/Service.php", "Service.php", code);
    assert!(nodes.is_empty(), "no Dolibarr idioms -> no nodes");
    assert!(edges.is_empty());
}

#[test]
fn only_public_methods_are_routes() {
    let code = r"<?php
        class Things extends DolibarrApi
        {
            protected function get($id) { return 1; }
            private static function index() { return 1; }
            static protected function post($request_data = null) { return 1; }
            final public function put($id) { return 1; }
            function delete($id) { return 1; }
        }
    ";
    let (nodes, edges) = run("things/class/api_things.class.php", "api_things.class.php", code);
    let routes: Vec<_> = nodes.iter().filter(|n| n.kind == "route").map(|n| n.id.as_str()).collect();
    assert_eq!(routes, vec!["route:/things/{id}"]);
    let served = edge_targets(&edges, "serves");
    assert_eq!(served.len(), 2, "{served:?}");
    assert!(served[0].ends_with("#Things.put") && served[1].ends_with("#Things.delete"), "{served:?}");
}
