//! Tables and columns.
//!
//! These identifiers are the closed allowlist of names that may stand in a
//! statement; a name that a caller supplies is looked up here and never copied
//! into a statement.
use crate::text::same_text;
use vstd::prelude::*;

verus! {

/// The table `usage_records` and its columns.
#[derive(Debug, Clone, Copy, PartialEq, Eq, Structural)]
pub enum UsageRecords {
    Table,
    Id,
    TenantId,
    GtsId,
    Value,
    CreatedAt,
    ResourceId,
    ResourceType,
    SubjectId,
    SubjectType,
    IdempotencyKey,
    CorrectsId,
    Status,
    Metadata,
    IngestedAt,
    Version,
}

/// The columns of a record row, in field order.
pub const RECORD_SELECT_COLUMNS: [UsageRecords; 15] = [
    UsageRecords::Id,
    UsageRecords::TenantId,
    UsageRecords::GtsId,
    UsageRecords::Value,
    UsageRecords::CreatedAt,
    UsageRecords::ResourceId,
    UsageRecords::ResourceType,
    UsageRecords::SubjectId,
    UsageRecords::SubjectType,
    UsageRecords::IdempotencyKey,
    UsageRecords::CorrectsId,
    UsageRecords::Status,
    UsageRecords::Metadata,
    UsageRecords::IngestedAt,
    UsageRecords::Version,
];

/// The table `usage_type_catalog` and its columns.
#[derive(Debug, Clone, Copy, PartialEq, Eq, Structural)]
pub enum UsageTypeCatalog {
    Table,
    GtsId,
    Kind,
    MetadataFields,
    Version,
}

/// The columns of a catalog row, in field order.
pub const TYPE_SELECT_COLUMNS: [UsageTypeCatalog; 4] = [
    UsageTypeCatalog::GtsId,
    UsageTypeCatalog::Kind,
    UsageTypeCatalog::MetadataFields,
    UsageTypeCatalog::Version,
];

impl UsageRecords {
    /// The identifier's text.
    pub open spec fn spec_iden(self) -> Seq<char> {
        match self {
            UsageRecords::Table => "usage_records"@,
            UsageRecords::Id => "id"@,
            UsageRecords::TenantId => "tenant_id"@,
            UsageRecords::GtsId => "gts_id"@,
            UsageRecords::Value => "value"@,
            UsageRecords::CreatedAt => "created_at"@,
            UsageRecords::ResourceId => "resource_id"@,
            UsageRecords::ResourceType => "resource_type"@,
            UsageRecords::SubjectId => "subject_id"@,
            UsageRecords::SubjectType => "subject_type"@,
            UsageRecords::IdempotencyKey => "idempotency_key"@,
            UsageRecords::CorrectsId => "corrects_id"@,
            UsageRecords::Status => "status"@,
            UsageRecords::Metadata => "metadata"@,
            UsageRecords::IngestedAt => "ingested_at"@,
            UsageRecords::Version => "version"@,
        }
    }

    /// The identifier's text.
    pub fn iden(self) -> (s: &'static str)
        ensures
            s@ == self.spec_iden(),
    {
        match self {
            UsageRecords::Table => "usage_records",
            UsageRecords::Id => "id",
            UsageRecords::TenantId => "tenant_id",
            UsageRecords::GtsId => "gts_id",
            UsageRecords::Value => "value",
            UsageRecords::CreatedAt => "created_at",
            UsageRecords::ResourceId => "resource_id",
            UsageRecords::ResourceType => "resource_type",
            UsageRecords::SubjectId => "subject_id",
            UsageRecords::SubjectType => "subject_type",
            UsageRecords::IdempotencyKey => "idempotency_key",
            UsageRecords::CorrectsId => "corrects_id",
            UsageRecords::Status => "status",
            UsageRecords::Metadata => "metadata",
            UsageRecords::IngestedAt => "ingested_at",
            UsageRecords::Version => "version",
        }
    }
}

impl UsageTypeCatalog {
    /// The identifier's text.
    pub open spec fn spec_iden(self) -> Seq<char> {
        match self {
            UsageTypeCatalog::Table => "usage_type_catalog"@,
            UsageTypeCatalog::GtsId => "gts_id"@,
            UsageTypeCatalog::Kind => "kind"@,
            UsageTypeCatalog::MetadataFields => "metadata_fields"@,
            UsageTypeCatalog::Version => "version"@,
        }
    }

    /// The identifier's text.
    pub fn iden(self) -> (s: &'static str)
        ensures
            s@ == self.spec_iden(),
    {
        match self {
            UsageTypeCatalog::Table => "usage_type_catalog",
            UsageTypeCatalog::GtsId => "gts_id",
            UsageTypeCatalog::Kind => "kind",
            UsageTypeCatalog::MetadataFields => "metadata_fields",
            UsageTypeCatalog::Version => "version",
        }
    }
}

/// The names of the columns of a record row, in field order.
pub open spec fn record_select_columns() -> Seq<Seq<char>> {
    RECORD_SELECT_COLUMNS@.map_values(|c: UsageRecords| c.spec_iden())
}

/// The names of the columns of a catalog row, in field order.
pub open spec fn type_select_columns() -> Seq<Seq<char>> {
    TYPE_SELECT_COLUMNS@.map_values(|c: UsageTypeCatalog| c.spec_iden())
}

/// The column of `usage_records` that a filter or order field names. `gts_id`
/// is not among the fields: callers give it apart from the filter.
pub open spec fn record_column_of(field_name: Seq<char>) -> Option<UsageRecords> {
    if field_name == "id"@ {
        Some(UsageRecords::Id)
    } else if field_name == "created_at"@ {
        Some(UsageRecords::CreatedAt)
    } else if field_name == "tenant_id"@ {
        Some(UsageRecords::TenantId)
    } else if field_name == "resource_id"@ {
        Some(UsageRecords::ResourceId)
    } else if field_name == "resource_type"@ {
        Some(UsageRecords::ResourceType)
    } else if field_name == "subject_id"@ {
        Some(UsageRecords::SubjectId)
    } else if field_name == "subject_type"@ {
        Some(UsageRecords::SubjectType)
    } else if field_name == "corrects_id"@ {
        Some(UsageRecords::CorrectsId)
    } else if field_name == "status"@ {
        Some(UsageRecords::Status)
    } else {
        None
    }
}

/// Maps a filter or order field to its column of `usage_records`.
pub fn record_column_iden(field_name: &str) -> (r: Option<UsageRecords>)
    ensures
        r == record_column_of(field_name@),
{
    if same_text(field_name, "id") {
        Some(UsageRecords::Id)
    } else if same_text(field_name, "created_at") {
        Some(UsageRecords::CreatedAt)
    } else if same_text(field_name, "tenant_id") {
        Some(UsageRecords::TenantId)
    } else if same_text(field_name, "resource_id") {
        Some(UsageRecords::ResourceId)
    } else if same_text(field_name, "resource_type") {
        Some(UsageRecords::ResourceType)
    } else if same_text(field_name, "subject_id") {
        Some(UsageRecords::SubjectId)
    } else if same_text(field_name, "subject_type") {
        Some(UsageRecords::SubjectType)
    } else if same_text(field_name, "corrects_id") {
        Some(UsageRecords::CorrectsId)
    } else if same_text(field_name, "status") {
        Some(UsageRecords::Status)
    } else {
        None
    }
}

/// The column of `usage_type_catalog` that a filter or order field names.
pub open spec fn usage_type_column_of(field_name: Seq<char>) -> Option<UsageTypeCatalog> {
    if field_name == "gts_id"@ {
        Some(UsageTypeCatalog::GtsId)
    } else if field_name == "kind"@ {
        Some(UsageTypeCatalog::Kind)
    } else {
        None
    }
}

/// Maps a filter or order field to its column of `usage_type_catalog`.
pub fn usage_type_column_iden(field_name: &str) -> (r: Option<UsageTypeCatalog>)
    ensures
        r == usage_type_column_of(field_name@),
{
    if same_text(field_name, "gts_id") {
        Some(UsageTypeCatalog::GtsId)
    } else if same_text(field_name, "kind") {
        Some(UsageTypeCatalog::Kind)
    } else {
        None
    }
}

/// A field is named like the column it stands for, so no two fields share a
/// column.
pub proof fn law_fields_are_named_like_their_columns(field_name: Seq<char>)
    ensures
        record_column_of(field_name) matches Some(c) ==> c.spec_iden() == field_name,
        usage_type_column_of(field_name) matches Some(c) ==> c.spec_iden() == field_name,
{
}

/// The fields that a filter or an order may name are these, and each stands for
/// the column of its own name: nine of a record, and two of a usage type.
pub proof fn law_fields_that_may_be_named(field_name: Seq<char>)
    ensures
        record_column_of(field_name) is Some <==> field_name == "id"@ || field_name
            == "created_at"@ || field_name == "tenant_id"@ || field_name == "resource_id"@
            || field_name == "resource_type"@ || field_name == "subject_id"@ || field_name
            == "subject_type"@ || field_name == "corrects_id"@ || field_name == "status"@,
        record_column_of(field_name) matches Some(c) ==> c.spec_iden() == field_name,
        usage_type_column_of(field_name) is Some <==> field_name == "gts_id"@ || field_name
            == "kind"@,
        usage_type_column_of(field_name) matches Some(c) ==> c.spec_iden() == field_name,
{
}

/// The names of the tables and columns.
pub proof fn law_names_of_tables_and_columns()
    ensures
        UsageRecords::Table.spec_iden() == "usage_records"@,
        UsageRecords::Id.spec_iden() == "id"@,
        UsageRecords::TenantId.spec_iden() == "tenant_id"@,
        UsageRecords::GtsId.spec_iden() == "gts_id"@,
        UsageRecords::Value.spec_iden() == "value"@,
        UsageRecords::CreatedAt.spec_iden() == "created_at"@,
        UsageRecords::ResourceId.spec_iden() == "resource_id"@,
        UsageRecords::ResourceType.spec_iden() == "resource_type"@,
        UsageRecords::SubjectId.spec_iden() == "subject_id"@,
        UsageRecords::SubjectType.spec_iden() == "subject_type"@,
        UsageRecords::IdempotencyKey.spec_iden() == "idempotency_key"@,
        UsageRecords::CorrectsId.spec_iden() == "corrects_id"@,
        UsageRecords::Status.spec_iden() == "status"@,
        UsageRecords::Metadata.spec_iden() == "metadata"@,
        UsageRecords::IngestedAt.spec_iden() == "ingested_at"@,
        UsageRecords::Version.spec_iden() == "version"@,
        UsageTypeCatalog::Table.spec_iden() == "usage_type_catalog"@,
        UsageTypeCatalog::GtsId.spec_iden() == "gts_id"@,
        UsageTypeCatalog::Kind.spec_iden() == "kind"@,
        UsageTypeCatalog::MetadataFields.spec_iden() == "metadata_fields"@,
        UsageTypeCatalog::Version.spec_iden() == "version"@,
        record_select_columns() == seq![
            "id"@,
            "tenant_id"@,
            "gts_id"@,
            "value"@,
            "created_at"@,
            "resource_id"@,
            "resource_type"@,
            "subject_id"@,
            "subject_type"@,
            "idempotency_key"@,
            "corrects_id"@,
            "status"@,
            "metadata"@,
            "ingested_at"@,
            "version"@,
        ],
        type_select_columns() == seq!["gts_id"@, "kind"@, "metadata_fields"@, "version"@],
{
    assert(record_select_columns() =~= seq![
        "id"@,
        "tenant_id"@,
        "gts_id"@,
        "value"@,
        "created_at"@,
        "resource_id"@,
        "resource_type"@,
        "subject_id"@,
        "subject_type"@,
        "idempotency_key"@,
        "corrects_id"@,
        "status"@,
        "metadata"@,
        "ingested_at"@,
        "version"@,
    ]);
    assert(type_select_columns() =~= seq!["gts_id"@, "kind"@, "metadata_fields"@, "version"@]);
}

} // verus!
