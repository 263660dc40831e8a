//! The authenticated principal the engine consumes.
//!
//! Authentication itself (credential checking, token issuance and
//! revocation) is an outside collaborator; the engine only consumes the
//! resolved principal and its role, as an opaque capability gate.

use vstd::prelude::*;
use vstd::string::*;
use crate::errors::ApiError;
use crate::search::lowercase_of;

verus! {

#[derive(Clone, Copy, PartialEq, Eq, Structural, Debug)]
pub enum UserRole {
    Admin,
    User,
}

/// Whether a principal holding `actual` may use an endpoint demanding
/// `required`: the user level admits everyone, the admin level admits
/// admins only.
pub open spec fn role_satisfies(actual: UserRole, required: UserRole) -> bool {
    match required {
        UserRole::User => true,
        UserRole::Admin => actual is Admin,
    }
}

impl UserRole {
    /// The role's wire name.
    pub fn as_str(&self) -> (r: &'static str)
        ensures
            self is Admin ==> r@ == "admin"@,
            self is User ==> r@ == "user"@,
    {
        match self {
            UserRole::Admin => "admin",
            UserRole::User => "user",
        }
    }

    /// Parse a role name, ignoring case.
    pub fn parse_role(s: &str) -> (r: Result<UserRole, String>)
        ensures
            lowercase_of(s@) == "admin"@ ==> r == Result::<UserRole, String>::Ok(UserRole::Admin),
            lowercase_of(s@) == "user"@ ==> r == Result::<UserRole, String>::Ok(UserRole::User),
            r is Ok <==> (lowercase_of(s@) == "admin"@ || lowercase_of(s@) == "user"@),
    {
        proof {
            reveal_strlit("admin");
            reveal_strlit("user");
            assert("admin"@.len() == 5);
            assert("user"@.len() == 4);
            assert("admin"@ != "user"@);
        }
        let folded = crate::search::to_lowercase_str(s);
        if crate::paths::str_eq(folded.as_str(), "admin") {
            Ok(UserRole::Admin)
        } else if crate::paths::str_eq(folded.as_str(), "user") {
            Ok(UserRole::User)
        } else {
            Err(String::from_str("invalid role: ").concat(s))
        }
    }
}

impl core::str::FromStr for UserRole {
    type Err = String;

    fn from_str(s: &str) -> Result<UserRole, String> {
        UserRole::parse_role(s)
    }
}

/// The principal one request acts as.
pub struct AuthContext {
    pub user_id: String,
    pub email: String,
    pub role: UserRole,
    /// The bearer token the principal presented, kept so a logout can
    /// revoke this session specifically.
    pub token: String,
}

impl AuthContext {
    pub fn is_admin(&self) -> (r: bool)
        ensures
            r == (self.role is Admin),
    {
        match self.role {
            UserRole::Admin => true,
            UserRole::User => false,
        }
    }

    pub fn has_role(&self, required_role: &UserRole) -> (r: bool)
        ensures
            r == role_satisfies(self.role, *required_role),
    {
        match (required_role, &self.role) {
            (UserRole::User, _) => true,
            (UserRole::Admin, UserRole::Admin) => true,
            _ => false,
        }
    }
}

/// The claims carried inside a bearer token.
pub struct Claims {
    /// User id.
    pub sub: String,
    pub email: String,
    pub role: String,
    /// Expiration time, seconds.
    pub exp: i64,
    /// Issued at, seconds.
    pub iat: i64,
    /// Token id, for revocation.
    pub jti: String,
}

pub struct CreateUserRequest {
    pub email: String,
    pub password: String,
    pub role: Option<UserRole>,
}

pub struct LoginRequest {
    pub email: String,
    pub password: String,
}

/// The scheme prefix of a bearer authorization header.
pub open spec fn bearer_prefix() -> Seq<char> {
    "Bearer "@
}

/// Extract the token from an `Authorization` header: the part after the
/// `Bearer ` scheme prefix; anything else is `Unauthorized`.
pub fn extract_bearer_token(auth_header: &str) -> (r: Result<String, ApiError>)
    ensures
        r is Ok <==> (auth_header@.len() >= bearer_prefix().len() && auth_header@.subrange(
            0,
            bearer_prefix().len() as int,
        ) == bearer_prefix()),
        r matches Ok(t) ==> t@ == auth_header@.skip(bearer_prefix().len() as int),
        r matches Err(e) ==> e is Unauthorized,
{
    proof {
        reveal_strlit("Bearer ");
    }
    let n = auth_header.unicode_len();
    if n < 7 {
        return Err(
            ApiError::Unauthorized {
                message: String::from_str("authorization header must use the bearer scheme"),
            },
        );
    }
    let prefix = auth_header.substring_char(0, 7);
    if !crate::paths::str_eq(prefix, "Bearer ") {
        proof {
            assert(prefix@ == auth_header@.subrange(0, 7));
        }
        return Err(
            ApiError::Unauthorized {
                message: String::from_str("authorization header must use the bearer scheme"),
            },
        );
    }
    let token = auth_header.substring_char(7, n);
    proof {
        assert(token@ =~= auth_header@.skip(7));
    }
    Ok(String::from_str(token))
}

} // verus!
