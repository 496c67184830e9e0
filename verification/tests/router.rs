//! Router configs.

use plouf_rs::router::scan;

#[test]
fn links_vue_lazy_const_routes_to_pages() {
    let code = "const LoginPage = () => import('../pages/LoginPage.vue');\nconst HomePage = () => import('../pages/HomePage.vue');\nconst routes = [\n  { path: '/', name: 'home', component: HomePage, meta: { a: 1 } },\n  { path: '/login', name: 'login', component: LoginPage },\n];";
    let (nodes, edges) = scan("resources/js/router/index.ts", code);
    assert!(nodes.iter().any(|n| n.kind == "route" && n.name == "/login"));
    assert!(nodes.iter().any(|n| n.kind == "route" && n.name == "/"));
    // `../pages/LoginPage.vue` resolves against the router dir.
    assert!(edges.iter().any(|e| e.relation == "renders"
        && e.source == "route:/login"
        && e.name.as_deref() == Some("resources/js/pages/LoginPage.vue")));
}

#[test]
fn links_angular_component_and_lazy_routes() {
    // Static component import + a relative path (no leading slash), and a lazy
    // loadComponent with an inline dynamic import.
    let code = "import { HomeComponent } from './home/home.component';\nconst routes = [\n  { path: 'home', component: HomeComponent },\n  { path: 'admin', loadComponent: () => import('./admin/admin.component').then(m => m.AdminComponent) },\n];";
    let (nodes, edges) = scan("src/app/app.routes.ts", code);
    assert!(nodes.iter().any(|n| n.kind == "route" && n.name == "/home"));
    assert!(nodes.iter().any(|n| n.kind == "route" && n.name == "/admin"));
    assert!(edges.iter().any(|e| e.name.as_deref() == Some("src/app/home/home.component")));
    assert!(edges.iter().any(|e| e.name.as_deref() == Some("src/app/admin/admin.component")));
}

#[test]
fn ignores_non_router_files() {
    let (nodes, edges) = scan("a.ts", "export const x = { path: 'nope' };");
    assert!(nodes.is_empty() && edges.is_empty()); // has path: but no component/loadChildren
}

#[test]
fn covers_router_edge_cases() {
    // empty path -> '/', a non-relative (`@/`) import kept raw, `import type`
    // skipped, and a relative loadChildren joined.
    let code = "import type { T } from './t';\nconst routes = [\n  { path: '', component: () => import('@/pages/Root') },\n  { path: 'x', loadChildren: () => import('./x.module') },\n];";
    let (nodes, edges) = scan("src/app.routes.ts", code);
    assert!(nodes.iter().any(|n| n.kind == "route" && n.name == "/")); // '' -> root
    assert!(edges.iter().any(|e| e.name.as_deref() == Some("@/pages/Root"))); // non-relative kept raw
    assert!(edges.iter().any(|e| e.name.as_deref() == Some("src/x.module"))); // relative joined
}

#[test]
fn unbalanced_brace_does_not_panic() {
    // Looks like a router config (path: + component) but the object never closes.
    let (nodes, _) = scan("r.ts", "const routes = [ { path: '/a', component: A ");
    assert!(nodes.is_empty());
}
