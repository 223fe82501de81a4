//! The resource graph's data: resources, the relationships between them, and where in the source
//! each fact comes from.

use crate::json::{Json, JsonView};
use crate::text::{same_text, texts};
use vstd::prelude::*;

verus! {

/// The kinds of resource that are understood structurally. A resource of any other type still
/// becomes a node, of kind `Other`, and takes no part in the semantic passes.
#[derive(Debug, Clone, PartialEq, Eq, Hash)]
pub enum ResourceKind {
    S3Bucket,
    S3BucketPolicy,
    S3BucketPublicAccessBlock,
    S3BucketAcl,
    IamRole,
    IamPolicy,
    IamRolePolicy,
    IamRolePolicyAttachment,
    IamInstanceProfile,
    LambdaFunction,
    LambdaPermission,
    SecurityGroup,
    SecurityGroupRule,
    Instance,
    SecretsManagerSecret,
    /// Any other resource type, with its literal name.
    Other(String),
}

/// The contents of a [`ResourceKind`].
pub enum ResourceKindView {
    S3Bucket,
    S3BucketPolicy,
    S3BucketPublicAccessBlock,
    S3BucketAcl,
    IamRole,
    IamPolicy,
    IamRolePolicy,
    IamRolePolicyAttachment,
    IamInstanceProfile,
    LambdaFunction,
    LambdaPermission,
    SecurityGroup,
    SecurityGroupRule,
    Instance,
    SecretsManagerSecret,
    Other(Seq<char>),
}

impl View for ResourceKind {
    type V = ResourceKindView;

    open spec fn view(&self) -> ResourceKindView {
        match *self {
            ResourceKind::S3Bucket => ResourceKindView::S3Bucket,
            ResourceKind::S3BucketPolicy => ResourceKindView::S3BucketPolicy,
            ResourceKind::S3BucketPublicAccessBlock => ResourceKindView::S3BucketPublicAccessBlock,
            ResourceKind::S3BucketAcl => ResourceKindView::S3BucketAcl,
            ResourceKind::IamRole => ResourceKindView::IamRole,
            ResourceKind::IamPolicy => ResourceKindView::IamPolicy,
            ResourceKind::IamRolePolicy => ResourceKindView::IamRolePolicy,
            ResourceKind::IamRolePolicyAttachment => ResourceKindView::IamRolePolicyAttachment,
            ResourceKind::IamInstanceProfile => ResourceKindView::IamInstanceProfile,
            ResourceKind::LambdaFunction => ResourceKindView::LambdaFunction,
            ResourceKind::LambdaPermission => ResourceKindView::LambdaPermission,
            ResourceKind::SecurityGroup => ResourceKindView::SecurityGroup,
            ResourceKind::SecurityGroupRule => ResourceKindView::SecurityGroupRule,
            ResourceKind::Instance => ResourceKindView::Instance,
            ResourceKind::SecretsManagerSecret => ResourceKindView::SecretsManagerSecret,
            ResourceKind::Other(s) => ResourceKindView::Other(s@),
        }
    }
}

/// The kind of a resource type.
pub open spec fn kind_of(tf_type: Seq<char>) -> ResourceKindView {
    if tf_type == "aws_s3_bucket"@ {
        ResourceKindView::S3Bucket
    } else if tf_type == "aws_s3_bucket_policy"@ {
        ResourceKindView::S3BucketPolicy
    } else if tf_type == "aws_s3_bucket_public_access_block"@ {
        ResourceKindView::S3BucketPublicAccessBlock
    } else if tf_type == "aws_s3_bucket_acl"@ {
        ResourceKindView::S3BucketAcl
    } else if tf_type == "aws_iam_role"@ {
        ResourceKindView::IamRole
    } else if tf_type == "aws_iam_policy"@ {
        ResourceKindView::IamPolicy
    } else if tf_type == "aws_iam_role_policy"@ {
        ResourceKindView::IamRolePolicy
    } else if tf_type == "aws_iam_role_policy_attachment"@ {
        ResourceKindView::IamRolePolicyAttachment
    } else if tf_type == "aws_iam_instance_profile"@ {
        ResourceKindView::IamInstanceProfile
    } else if tf_type == "aws_lambda_function"@ {
        ResourceKindView::LambdaFunction
    } else if tf_type == "aws_lambda_permission"@ {
        ResourceKindView::LambdaPermission
    } else if tf_type == "aws_security_group"@ {
        ResourceKindView::SecurityGroup
    } else if tf_type == "aws_security_group_rule"@ {
        ResourceKindView::SecurityGroupRule
    } else if tf_type == "aws_instance"@ {
        ResourceKindView::Instance
    } else if tf_type == "aws_secretsmanager_secret"@ {
        ResourceKindView::SecretsManagerSecret
    } else {
        ResourceKindView::Other(tf_type)
    }
}

impl ResourceKind {
    /// The kind of a resource type.
    pub fn classify(tf_type: &str) -> (r: ResourceKind)
        ensures
            r@ == kind_of(tf_type@),
    {
        if same_text(tf_type, "aws_s3_bucket") {
            ResourceKind::S3Bucket
        } else if same_text(tf_type, "aws_s3_bucket_policy") {
            ResourceKind::S3BucketPolicy
        } else if same_text(tf_type, "aws_s3_bucket_public_access_block") {
            ResourceKind::S3BucketPublicAccessBlock
        } else if same_text(tf_type, "aws_s3_bucket_acl") {
            ResourceKind::S3BucketAcl
        } else if same_text(tf_type, "aws_iam_role") {
            ResourceKind::IamRole
        } else if same_text(tf_type, "aws_iam_policy") {
            ResourceKind::IamPolicy
        } else if same_text(tf_type, "aws_iam_role_policy") {
            ResourceKind::IamRolePolicy
        } else if same_text(tf_type, "aws_iam_role_policy_attachment") {
            ResourceKind::IamRolePolicyAttachment
        } else if same_text(tf_type, "aws_iam_instance_profile") {
            ResourceKind::IamInstanceProfile
        } else if same_text(tf_type, "aws_lambda_function") {
            ResourceKind::LambdaFunction
        } else if same_text(tf_type, "aws_lambda_permission") {
            ResourceKind::LambdaPermission
        } else if same_text(tf_type, "aws_security_group") {
            ResourceKind::SecurityGroup
        } else if same_text(tf_type, "aws_security_group_rule") {
            ResourceKind::SecurityGroupRule
        } else if same_text(tf_type, "aws_instance") {
            ResourceKind::Instance
        } else if same_text(tf_type, "aws_secretsmanager_secret") {
            ResourceKind::SecretsManagerSecret
        } else {
            ResourceKind::Other(tf_type.to_string())
        }
    }
}

/// Where in the source a fact comes from: the file, the resource, and the path of the attribute
/// inside the resource. An empty path stands for the resource as a whole.
#[derive(Debug, Clone, PartialEq, Eq)]
pub struct SourceRef {
    pub file: String,
    pub resource_id: String,
    pub attr_path: String,
}

/// The contents of a [`SourceRef`].
pub struct SourceRefView {
    pub file: Seq<char>,
    pub resource_id: Seq<char>,
    pub attr_path: Seq<char>,
}

impl View for SourceRef {
    type V = SourceRefView;

    open spec fn view(&self) -> SourceRefView {
        SourceRefView {
            file: self.file@,
            resource_id: self.resource_id@,
            attr_path: self.attr_path@,
        }
    }
}

/// A resource.
#[derive(Debug, Clone)]
pub struct Node {
    /// The resource's address, `type.name`.
    pub id: String,
    pub tf_type: String,
    pub tf_name: String,
    pub kind: ResourceKind,
    pub file: String,
    /// The resource's body as JSON. What the text leaves open stands there as a string that begins
    /// with `unresolved:`.
    pub attrs: Json,
    /// Whether the text leaves any attribute open.
    pub has_unresolved_attrs: bool,
}

/// The contents of a [`Node`].
pub struct NodeView {
    pub id: Seq<char>,
    pub tf_type: Seq<char>,
    pub tf_name: Seq<char>,
    pub kind: ResourceKindView,
    pub file: Seq<char>,
    pub attrs: JsonView,
    pub has_unresolved_attrs: bool,
}

impl View for Node {
    type V = NodeView;

    open spec fn view(&self) -> NodeView {
        NodeView {
            id: self.id@,
            tf_type: self.tf_type@,
            tf_name: self.tf_name@,
            kind: self.kind@,
            file: self.file@,
            attrs: self.attrs@,
            has_unresolved_attrs: self.has_unresolved_attrs,
        }
    }
}

/// What a relationship between two resources is.
#[derive(Debug, Clone, PartialEq, Eq)]
pub enum EdgeKind {
    /// An attribute of the source traverses into the target.
    References,
    /// The source, a role, trusts the target.
    IamTrust { principal: String },
    /// The source, a role, may perform `actions` on the target.
    IamGrants { actions: Vec<String>, effect: String, resource_match: String },
    /// The source runs as the target, a role.
    Attached,
    /// The source, a security group, lets traffic in to the target.
    NetworkReachable { protocol: String, from_port: i64, to_port: i64, cidr: String },
}

/// The contents of an [`EdgeKind`].
pub enum EdgeKindView {
    References,
    IamTrust { principal: Seq<char> },
    IamGrants { actions: Seq<Seq<char>>, effect: Seq<char>, resource_match: Seq<char> },
    Attached,
    NetworkReachable { protocol: Seq<char>, from_port: i64, to_port: i64, cidr: Seq<char> },
}

impl View for EdgeKind {
    type V = EdgeKindView;

    open spec fn view(&self) -> EdgeKindView {
        match *self {
            EdgeKind::References => EdgeKindView::References,
            EdgeKind::IamTrust { principal } => EdgeKindView::IamTrust { principal: principal@ },
            EdgeKind::IamGrants { actions, effect, resource_match } => EdgeKindView::IamGrants {
                actions: texts(actions@),
                effect: effect@,
                resource_match: resource_match@,
            },
            EdgeKind::Attached => EdgeKindView::Attached,
            EdgeKind::NetworkReachable { protocol, from_port, to_port, cidr } => {
                EdgeKindView::NetworkReachable {
                    protocol: protocol@,
                    from_port,
                    to_port,
                    cidr: cidr@,
                }
            },
        }
    }
}

/// A relationship between two resources.
#[derive(Debug, Clone)]
pub struct Edge {
    pub kind: EdgeKind,
    pub evidence: SourceRef,
    /// What makes the relationship, in words.
    pub description: String,
}

/// The contents of an [`Edge`].
pub struct EdgeView {
    pub kind: EdgeKindView,
    pub evidence: SourceRefView,
    pub description: Seq<char>,
}

impl View for Edge {
    type V = EdgeView;

    open spec fn view(&self) -> EdgeView {
        EdgeView {
            kind: self.kind@,
            evidence: self.evidence@,
            description: self.description@,
        }
    }
}

} // verus!
