//! The data the backend hands the UI: saved connections and schema trees.
use vstd::prelude::*;

verus! {

/// A saved connection.
#[derive(Clone, Debug, Default, PartialEq)]
pub struct ConnectionConfig {
    pub id: String,
    pub name: String,
    pub driver: String,
    pub tab_color: String,
    pub tab_text_black: bool,
    pub host: String,
    pub port: i32,
    pub username: String,
    pub password: String,
    pub has_saved_password: bool,
    pub auth_mode: String,
    pub database: String,
    pub dsn: String,
    pub aws_region: String,
    pub aws_profile: String,
    pub ssl_ca_path: String,
    pub use_kube_port_forward: bool,
    pub kubectl_path: String,
    pub kube_context: String,
    pub kube_namespace: String,
    pub kube_resource: String,
    pub kube_local_port: i32,
    pub kube_remote_port: i32,
}

#[derive(Clone, Debug, Default, PartialEq)]
pub struct Column {
    pub name: String,
    pub column_type: String,
    pub nullable: bool,
    pub default: String,
    pub key: String,
}

#[derive(Clone, Debug, Default, PartialEq)]
pub struct Table {
    pub name: String,
    pub table_type: String,
    pub size_bytes: Option<i64>,
    pub columns: Vec<Column>,
}

#[derive(Clone, Debug, Default, PartialEq)]
pub struct Schema {
    pub name: String,
    pub size_bytes: Option<i64>,
    pub tables: Vec<Table>,
    pub views: Vec<Table>,
    pub indexes: Vec<String>,
}

#[derive(Clone, Debug, Default, PartialEq)]
pub struct Database {
    pub name: String,
    pub size_bytes: Option<i64>,
    pub schemas: Vec<Schema>,
}

#[derive(Clone, Debug, Default, PartialEq)]
pub struct RelationshipTableRef {
    pub schema_name: String,
    pub table_name: String,
}

#[derive(Clone, Debug, Default, PartialEq)]
pub struct RelationshipColumnPair {
    pub source_column: String,
    pub target_column: String,
}

#[derive(Clone, Debug, Default, PartialEq)]
pub struct Relationship {
    pub constraint_name: String,
    pub source_table: RelationshipTableRef,
    pub target_table: RelationshipTableRef,
    pub column_pairs: Vec<RelationshipColumnPair>,
    pub on_update: String,
    pub on_delete: String,
}

/// A connection's schema: databases with schemas (Postgres), schemas
/// (MySQL), or a flat list of tables (SQLite).
#[derive(Clone, Debug, Default, PartialEq)]
pub struct SchemaTree {
    pub databases: Vec<Database>,
    pub schemas: Vec<Schema>,
    pub tables: Vec<Table>,
    pub views: Vec<Table>,
    pub indexes: Vec<String>,
    pub relationships: Vec<Relationship>,
    pub size_bytes: Option<i64>,
}

} // verus!
