//! SWAL operational status codes: numeric codes, slugs and the allowed transitions.
use vstd::prelude::*;

verus! {

/// Status codes grouped by range: 100s task lifecycle, 200s git, 300s CI,
/// 400s infrastructure, 500s incidents, 800s feature ledger, 900s snippets.
#[derive(Debug, Clone, Copy, PartialEq, Eq, Hash, Structural)]
pub enum SwalStatusCode {
    TskBacklog,
    TskReady,
    TskDispatched,
    TskRunning,
    TskPaused,
    TskBlockedDep,
    TskBlockedAuth,
    TskInReview,
    TskCompleted,
    TskFailed,
    TskAborted,
    GitIslandLock,
    GitBranchInit,
    GitTreeDirty,
    GitCommitted,
    GitPushed,
    GitPrOpened,
    GitPrReview,
    GitMerged,
    GitConflict,
    GitIslandBreach,
    CiQueued,
    CiBuilding,
    CiBuildOk,
    CiTestsPass,
    CiDeployedStg,
    CiDeployedPrd,
    CiBuildFail,
    CiTestFail,
    CiE2eFail,
    CiCovDrop,
    NodOnline,
    NodDegraded,
    NodStandby,
    NetMeshSynced,
    NetOffline,
    MemXavierReady,
    MemSyncPending,
    IncSev0Critical,
    IncSev1Blocker,
    IncSev2Degraded,
    SecLeakDetected,
    OomCrash,
    FeatDraft,
    FeatBeta,
    FeatPromoted,
    SnpFlutterBgService,
    SnpAtlasWsReconnect,
    SnpRustCdylibCabi,
    SnpIsarTransaction,
    SnpE2ePlaywrightPwa,
}

/// Numeric code of a status.
pub open spec fn status_code(s: SwalStatusCode) -> i64 {
    match s {
        SwalStatusCode::TskBacklog => 100,
        SwalStatusCode::TskReady => 101,
        SwalStatusCode::TskDispatched => 102,
        SwalStatusCode::TskRunning => 103,
        SwalStatusCode::TskPaused => 104,
        SwalStatusCode::TskBlockedDep => 110,
        SwalStatusCode::TskBlockedAuth => 111,
        SwalStatusCode::TskInReview => 120,
        SwalStatusCode::TskCompleted => 130,
        SwalStatusCode::TskFailed => 140,
        SwalStatusCode::TskAborted => 141,
        SwalStatusCode::GitIslandLock => 200,
        SwalStatusCode::GitBranchInit => 201,
        SwalStatusCode::GitTreeDirty => 202,
        SwalStatusCode::GitCommitted => 203,
        SwalStatusCode::GitPushed => 204,
        SwalStatusCode::GitPrOpened => 210,
        SwalStatusCode::GitPrReview => 211,
        SwalStatusCode::GitMerged => 212,
        SwalStatusCode::GitConflict => 220,
        SwalStatusCode::GitIslandBreach => 221,
        SwalStatusCode::CiQueued => 300,
        SwalStatusCode::CiBuilding => 301,
        SwalStatusCode::CiBuildOk => 302,
        SwalStatusCode::CiTestsPass => 303,
        SwalStatusCode::CiDeployedStg => 304,
        SwalStatusCode::CiDeployedPrd => 305,
        SwalStatusCode::CiBuildFail => 310,
        SwalStatusCode::CiTestFail => 311,
        SwalStatusCode::CiE2eFail => 312,
        SwalStatusCode::CiCovDrop => 313,
        SwalStatusCode::NodOnline => 400,
        SwalStatusCode::NodDegraded => 401,
        SwalStatusCode::NodStandby => 402,
        SwalStatusCode::NetMeshSynced => 410,
        SwalStatusCode::NetOffline => 411,
        SwalStatusCode::MemXavierReady => 420,
        SwalStatusCode::MemSyncPending => 421,
        SwalStatusCode::IncSev0Critical => 500,
        SwalStatusCode::IncSev1Blocker => 501,
        SwalStatusCode::IncSev2Degraded => 502,
        SwalStatusCode::SecLeakDetected => 510,
        SwalStatusCode::OomCrash => 520,
        SwalStatusCode::FeatDraft => 801,
        SwalStatusCode::FeatBeta => 802,
        SwalStatusCode::FeatPromoted => 803,
        SwalStatusCode::SnpFlutterBgService => 901,
        SwalStatusCode::SnpAtlasWsReconnect => 902,
        SwalStatusCode::SnpRustCdylibCabi => 903,
        SwalStatusCode::SnpIsarTransaction => 904,
        SwalStatusCode::SnpE2ePlaywrightPwa => 905,
    }
}

/// Upper-case slug of a status.
pub open spec fn status_slug(s: SwalStatusCode) -> Seq<char> {
    match s {
        SwalStatusCode::TskBacklog => "TSK_BACKLOG"@,
        SwalStatusCode::TskReady => "TSK_READY"@,
        SwalStatusCode::TskDispatched => "TSK_DISPATCHED"@,
        SwalStatusCode::TskRunning => "TSK_RUNNING"@,
        SwalStatusCode::TskPaused => "TSK_PAUSED"@,
        SwalStatusCode::TskBlockedDep => "TSK_BLOCKED_DEP"@,
        SwalStatusCode::TskBlockedAuth => "TSK_BLOCKED_AUTH"@,
        SwalStatusCode::TskInReview => "TSK_IN_REVIEW"@,
        SwalStatusCode::TskCompleted => "TSK_COMPLETED"@,
        SwalStatusCode::TskFailed => "TSK_FAILED"@,
        SwalStatusCode::TskAborted => "TSK_ABORTED"@,
        SwalStatusCode::GitIslandLock => "GIT_ISLAND_LOCK"@,
        SwalStatusCode::GitBranchInit => "GIT_BRANCH_INIT"@,
        SwalStatusCode::GitTreeDirty => "GIT_TREE_DIRTY"@,
        SwalStatusCode::GitCommitted => "GIT_COMMITTED"@,
        SwalStatusCode::GitPushed => "GIT_PUSHED"@,
        SwalStatusCode::GitPrOpened => "GIT_PR_OPENED"@,
        SwalStatusCode::GitPrReview => "GIT_PR_REVIEW"@,
        SwalStatusCode::GitMerged => "GIT_MERGED"@,
        SwalStatusCode::GitConflict => "GIT_CONFLICT"@,
        SwalStatusCode::GitIslandBreach => "GIT_ISLAND_BREACH"@,
        SwalStatusCode::CiQueued => "CI_QUEUED"@,
        SwalStatusCode::CiBuilding => "CI_BUILDING"@,
        SwalStatusCode::CiBuildOk => "CI_BUILD_OK"@,
        SwalStatusCode::CiTestsPass => "CI_TESTS_PASS"@,
        SwalStatusCode::CiDeployedStg => "CI_DEPLOYED_STG"@,
        SwalStatusCode::CiDeployedPrd => "CI_DEPLOYED_PRD"@,
        SwalStatusCode::CiBuildFail => "CI_BUILD_FAIL"@,
        SwalStatusCode::CiTestFail => "CI_TEST_FAIL"@,
        SwalStatusCode::CiE2eFail => "CI_E2E_FAIL"@,
        SwalStatusCode::CiCovDrop => "CI_COV_DROP"@,
        SwalStatusCode::NodOnline => "NOD_ONLINE"@,
        SwalStatusCode::NodDegraded => "NOD_DEGRADED"@,
        SwalStatusCode::NodStandby => "NOD_STANDBY"@,
        SwalStatusCode::NetMeshSynced => "NET_MESH_SYNCED"@,
        SwalStatusCode::NetOffline => "NET_OFFLINE"@,
        SwalStatusCode::MemXavierReady => "MEM_XAVIER_READY"@,
        SwalStatusCode::MemSyncPending => "MEM_SYNC_PENDING"@,
        SwalStatusCode::IncSev0Critical => "INC_SEV0_CRITICAL"@,
        SwalStatusCode::IncSev1Blocker => "INC_SEV1_BLOCKER"@,
        SwalStatusCode::IncSev2Degraded => "INC_SEV2_DEGRADED"@,
        SwalStatusCode::SecLeakDetected => "SEC_LEAK_DETECTED"@,
        SwalStatusCode::OomCrash => "OOM_CRASH"@,
        SwalStatusCode::FeatDraft => "FEAT_DRAFT"@,
        SwalStatusCode::FeatBeta => "FEAT_BETA"@,
        SwalStatusCode::FeatPromoted => "FEAT_PROMOTED"@,
        SwalStatusCode::SnpFlutterBgService => "SNP_FLUTTER_BG_SERVICE"@,
        SwalStatusCode::SnpAtlasWsReconnect => "SNP_ATLAS_WS_RECONNECT"@,
        SwalStatusCode::SnpRustCdylibCabi => "SNP_RUST_CDYLIB_CABI"@,
        SwalStatusCode::SnpIsarTransaction => "SNP_ISAR_TRANSACTION"@,
        SwalStatusCode::SnpE2ePlaywrightPwa => "SNP_E2E_PLAYWRIGHT_PWA"@,
    }
}

/// The status with a numeric code, if any.
pub open spec fn status_of_code(code: i64) -> Option<SwalStatusCode> {
    match code {
        100 => Some(SwalStatusCode::TskBacklog),
        101 => Some(SwalStatusCode::TskReady),
        102 => Some(SwalStatusCode::TskDispatched),
        103 => Some(SwalStatusCode::TskRunning),
        104 => Some(SwalStatusCode::TskPaused),
        110 => Some(SwalStatusCode::TskBlockedDep),
        111 => Some(SwalStatusCode::TskBlockedAuth),
        120 => Some(SwalStatusCode::TskInReview),
        130 => Some(SwalStatusCode::TskCompleted),
        140 => Some(SwalStatusCode::TskFailed),
        141 => Some(SwalStatusCode::TskAborted),
        200 => Some(SwalStatusCode::GitIslandLock),
        201 => Some(SwalStatusCode::GitBranchInit),
        202 => Some(SwalStatusCode::GitTreeDirty),
        203 => Some(SwalStatusCode::GitCommitted),
        204 => Some(SwalStatusCode::GitPushed),
        210 => Some(SwalStatusCode::GitPrOpened),
        211 => Some(SwalStatusCode::GitPrReview),
        212 => Some(SwalStatusCode::GitMerged),
        220 => Some(SwalStatusCode::GitConflict),
        221 => Some(SwalStatusCode::GitIslandBreach),
        300 => Some(SwalStatusCode::CiQueued),
        301 => Some(SwalStatusCode::CiBuilding),
        302 => Some(SwalStatusCode::CiBuildOk),
        303 => Some(SwalStatusCode::CiTestsPass),
        304 => Some(SwalStatusCode::CiDeployedStg),
        305 => Some(SwalStatusCode::CiDeployedPrd),
        310 => Some(SwalStatusCode::CiBuildFail),
        311 => Some(SwalStatusCode::CiTestFail),
        312 => Some(SwalStatusCode::CiE2eFail),
        313 => Some(SwalStatusCode::CiCovDrop),
        400 => Some(SwalStatusCode::NodOnline),
        401 => Some(SwalStatusCode::NodDegraded),
        402 => Some(SwalStatusCode::NodStandby),
        410 => Some(SwalStatusCode::NetMeshSynced),
        411 => Some(SwalStatusCode::NetOffline),
        420 => Some(SwalStatusCode::MemXavierReady),
        421 => Some(SwalStatusCode::MemSyncPending),
        500 => Some(SwalStatusCode::IncSev0Critical),
        501 => Some(SwalStatusCode::IncSev1Blocker),
        502 => Some(SwalStatusCode::IncSev2Degraded),
        510 => Some(SwalStatusCode::SecLeakDetected),
        520 => Some(SwalStatusCode::OomCrash),
        801 => Some(SwalStatusCode::FeatDraft),
        802 => Some(SwalStatusCode::FeatBeta),
        803 => Some(SwalStatusCode::FeatPromoted),
        901 => Some(SwalStatusCode::SnpFlutterBgService),
        902 => Some(SwalStatusCode::SnpAtlasWsReconnect),
        903 => Some(SwalStatusCode::SnpRustCdylibCabi),
        904 => Some(SwalStatusCode::SnpIsarTransaction),
        905 => Some(SwalStatusCode::SnpE2ePlaywrightPwa),
        _ => None,
    }
}

/// The finite-state machine of allowed transitions.
pub open spec fn transition_allowed(from: SwalStatusCode, to: SwalStatusCode) -> bool {
    match (from, to) {
        (SwalStatusCode::TskBacklog, SwalStatusCode::TskReady) => true,
        (SwalStatusCode::TskReady, SwalStatusCode::TskDispatched) => true,
        (SwalStatusCode::TskDispatched, SwalStatusCode::TskRunning) => true,
        (SwalStatusCode::TskRunning, SwalStatusCode::TskPaused) => true,
        (SwalStatusCode::TskPaused, SwalStatusCode::TskRunning) => true,
        (SwalStatusCode::TskRunning, SwalStatusCode::TskBlockedDep) => true,
        (SwalStatusCode::TskBlockedDep, SwalStatusCode::TskReady) => true,
        (SwalStatusCode::TskRunning, SwalStatusCode::TskBlockedAuth) => true,
        (SwalStatusCode::TskBlockedAuth, SwalStatusCode::TskRunning) => true,
        (SwalStatusCode::TskRunning, SwalStatusCode::TskInReview) => true,
        (SwalStatusCode::TskInReview, SwalStatusCode::TskCompleted) => true,
        (SwalStatusCode::TskInReview, SwalStatusCode::TskRunning) => true,
        (SwalStatusCode::TskRunning, SwalStatusCode::TskFailed) => true,
        (SwalStatusCode::TskRunning, SwalStatusCode::TskAborted) => true,
        (SwalStatusCode::TskRunning, SwalStatusCode::GitIslandLock) => true,
        (SwalStatusCode::GitIslandLock, SwalStatusCode::GitTreeDirty) => true,
        (SwalStatusCode::GitTreeDirty, SwalStatusCode::CiBuilding) => true,
        (SwalStatusCode::CiBuilding, SwalStatusCode::CiBuildOk) => true,
        (SwalStatusCode::CiBuilding, SwalStatusCode::CiBuildFail) => true,
        (SwalStatusCode::CiBuildFail, SwalStatusCode::GitTreeDirty) => true,
        (SwalStatusCode::CiBuildOk, SwalStatusCode::CiTestsPass) => true,
        (SwalStatusCode::CiBuildOk, SwalStatusCode::CiTestFail) => true,
        (SwalStatusCode::CiTestFail, SwalStatusCode::GitTreeDirty) => true,
        (SwalStatusCode::CiTestsPass, SwalStatusCode::GitCommitted) => true,
        (SwalStatusCode::GitCommitted, SwalStatusCode::GitPushed) => true,
        (SwalStatusCode::GitPushed, SwalStatusCode::TskInReview) => true,
        (SwalStatusCode::TskRunning, SwalStatusCode::IncSev0Critical) => true,
        (SwalStatusCode::TskRunning, SwalStatusCode::IncSev1Blocker) => true,
        (SwalStatusCode::TskRunning, SwalStatusCode::SecLeakDetected) => true,
        _ => false,
    }
}

impl SwalStatusCode {
    /// Numeric code of this status.
    pub fn code(&self) -> (r: i64)
        ensures
            r == status_code(*self),
    {
        match self {
            SwalStatusCode::TskBacklog => 100,
            SwalStatusCode::TskReady => 101,
            SwalStatusCode::TskDispatched => 102,
            SwalStatusCode::TskRunning => 103,
            SwalStatusCode::TskPaused => 104,
            SwalStatusCode::TskBlockedDep => 110,
            SwalStatusCode::TskBlockedAuth => 111,
            SwalStatusCode::TskInReview => 120,
            SwalStatusCode::TskCompleted => 130,
            SwalStatusCode::TskFailed => 140,
            SwalStatusCode::TskAborted => 141,
            SwalStatusCode::GitIslandLock => 200,
            SwalStatusCode::GitBranchInit => 201,
            SwalStatusCode::GitTreeDirty => 202,
            SwalStatusCode::GitCommitted => 203,
            SwalStatusCode::GitPushed => 204,
            SwalStatusCode::GitPrOpened => 210,
            SwalStatusCode::GitPrReview => 211,
            SwalStatusCode::GitMerged => 212,
            SwalStatusCode::GitConflict => 220,
            SwalStatusCode::GitIslandBreach => 221,
            SwalStatusCode::CiQueued => 300,
            SwalStatusCode::CiBuilding => 301,
            SwalStatusCode::CiBuildOk => 302,
            SwalStatusCode::CiTestsPass => 303,
            SwalStatusCode::CiDeployedStg => 304,
            SwalStatusCode::CiDeployedPrd => 305,
            SwalStatusCode::CiBuildFail => 310,
            SwalStatusCode::CiTestFail => 311,
            SwalStatusCode::CiE2eFail => 312,
            SwalStatusCode::CiCovDrop => 313,
            SwalStatusCode::NodOnline => 400,
            SwalStatusCode::NodDegraded => 401,
            SwalStatusCode::NodStandby => 402,
            SwalStatusCode::NetMeshSynced => 410,
            SwalStatusCode::NetOffline => 411,
            SwalStatusCode::MemXavierReady => 420,
            SwalStatusCode::MemSyncPending => 421,
            SwalStatusCode::IncSev0Critical => 500,
            SwalStatusCode::IncSev1Blocker => 501,
            SwalStatusCode::IncSev2Degraded => 502,
            SwalStatusCode::SecLeakDetected => 510,
            SwalStatusCode::OomCrash => 520,
            SwalStatusCode::FeatDraft => 801,
            SwalStatusCode::FeatBeta => 802,
            SwalStatusCode::FeatPromoted => 803,
            SwalStatusCode::SnpFlutterBgService => 901,
            SwalStatusCode::SnpAtlasWsReconnect => 902,
            SwalStatusCode::SnpRustCdylibCabi => 903,
            SwalStatusCode::SnpIsarTransaction => 904,
            SwalStatusCode::SnpE2ePlaywrightPwa => 905,
        }
    }

    /// Upper-case slug of this status.
    pub fn slug(&self) -> (r: &'static str)
        ensures
            r@ == status_slug(*self),
    {
        match self {
            SwalStatusCode::TskBacklog => "TSK_BACKLOG",
            SwalStatusCode::TskReady => "TSK_READY",
            SwalStatusCode::TskDispatched => "TSK_DISPATCHED",
            SwalStatusCode::TskRunning => "TSK_RUNNING",
            SwalStatusCode::TskPaused => "TSK_PAUSED",
            SwalStatusCode::TskBlockedDep => "TSK_BLOCKED_DEP",
            SwalStatusCode::TskBlockedAuth => "TSK_BLOCKED_AUTH",
            SwalStatusCode::TskInReview => "TSK_IN_REVIEW",
            SwalStatusCode::TskCompleted => "TSK_COMPLETED",
            SwalStatusCode::TskFailed => "TSK_FAILED",
            SwalStatusCode::TskAborted => "TSK_ABORTED",
            SwalStatusCode::GitIslandLock => "GIT_ISLAND_LOCK",
            SwalStatusCode::GitBranchInit => "GIT_BRANCH_INIT",
            SwalStatusCode::GitTreeDirty => "GIT_TREE_DIRTY",
            SwalStatusCode::GitCommitted => "GIT_COMMITTED",
            SwalStatusCode::GitPushed => "GIT_PUSHED",
            SwalStatusCode::GitPrOpened => "GIT_PR_OPENED",
            SwalStatusCode::GitPrReview => "GIT_PR_REVIEW",
            SwalStatusCode::GitMerged => "GIT_MERGED",
            SwalStatusCode::GitConflict => "GIT_CONFLICT",
            SwalStatusCode::GitIslandBreach => "GIT_ISLAND_BREACH",
            SwalStatusCode::CiQueued => "CI_QUEUED",
            SwalStatusCode::CiBuilding => "CI_BUILDING",
            SwalStatusCode::CiBuildOk => "CI_BUILD_OK",
            SwalStatusCode::CiTestsPass => "CI_TESTS_PASS",
            SwalStatusCode::CiDeployedStg => "CI_DEPLOYED_STG",
            SwalStatusCode::CiDeployedPrd => "CI_DEPLOYED_PRD",
            SwalStatusCode::CiBuildFail => "CI_BUILD_FAIL",
            SwalStatusCode::CiTestFail => "CI_TEST_FAIL",
            SwalStatusCode::CiE2eFail => "CI_E2E_FAIL",
            SwalStatusCode::CiCovDrop => "CI_COV_DROP",
            SwalStatusCode::NodOnline => "NOD_ONLINE",
            SwalStatusCode::NodDegraded => "NOD_DEGRADED",
            SwalStatusCode::NodStandby => "NOD_STANDBY",
            SwalStatusCode::NetMeshSynced => "NET_MESH_SYNCED",
            SwalStatusCode::NetOffline => "NET_OFFLINE",
            SwalStatusCode::MemXavierReady => "MEM_XAVIER_READY",
            SwalStatusCode::MemSyncPending => "MEM_SYNC_PENDING",
            SwalStatusCode::IncSev0Critical => "INC_SEV0_CRITICAL",
            SwalStatusCode::IncSev1Blocker => "INC_SEV1_BLOCKER",
            SwalStatusCode::IncSev2Degraded => "INC_SEV2_DEGRADED",
            SwalStatusCode::SecLeakDetected => "SEC_LEAK_DETECTED",
            SwalStatusCode::OomCrash => "OOM_CRASH",
            SwalStatusCode::FeatDraft => "FEAT_DRAFT",
            SwalStatusCode::FeatBeta => "FEAT_BETA",
            SwalStatusCode::FeatPromoted => "FEAT_PROMOTED",
            SwalStatusCode::SnpFlutterBgService => "SNP_FLUTTER_BG_SERVICE",
            SwalStatusCode::SnpAtlasWsReconnect => "SNP_ATLAS_WS_RECONNECT",
            SwalStatusCode::SnpRustCdylibCabi => "SNP_RUST_CDYLIB_CABI",
            SwalStatusCode::SnpIsarTransaction => "SNP_ISAR_TRANSACTION",
            SwalStatusCode::SnpE2ePlaywrightPwa => "SNP_E2E_PLAYWRIGHT_PWA",
        }
    }

    /// The status with this numeric code, if any.
    pub fn from_code(code: i64) -> (r: Option<SwalStatusCode>)
        ensures
            r == status_of_code(code),
    {
        match code {
            100 => Some(SwalStatusCode::TskBacklog),
            101 => Some(SwalStatusCode::TskReady),
            102 => Some(SwalStatusCode::TskDispatched),
            103 => Some(SwalStatusCode::TskRunning),
            104 => Some(SwalStatusCode::TskPaused),
            110 => Some(SwalStatusCode::TskBlockedDep),
            111 => Some(SwalStatusCode::TskBlockedAuth),
            120 => Some(SwalStatusCode::TskInReview),
            130 => Some(SwalStatusCode::TskCompleted),
            140 => Some(SwalStatusCode::TskFailed),
            141 => Some(SwalStatusCode::TskAborted),
            200 => Some(SwalStatusCode::GitIslandLock),
            201 => Some(SwalStatusCode::GitBranchInit),
            202 => Some(SwalStatusCode::GitTreeDirty),
            203 => Some(SwalStatusCode::GitCommitted),
            204 => Some(SwalStatusCode::GitPushed),
            210 => Some(SwalStatusCode::GitPrOpened),
            211 => Some(SwalStatusCode::GitPrReview),
            212 => Some(SwalStatusCode::GitMerged),
            220 => Some(SwalStatusCode::GitConflict),
            221 => Some(SwalStatusCode::GitIslandBreach),
            300 => Some(SwalStatusCode::CiQueued),
            301 => Some(SwalStatusCode::CiBuilding),
            302 => Some(SwalStatusCode::CiBuildOk),
            303 => Some(SwalStatusCode::CiTestsPass),
            304 => Some(SwalStatusCode::CiDeployedStg),
            305 => Some(SwalStatusCode::CiDeployedPrd),
            310 => Some(SwalStatusCode::CiBuildFail),
            311 => Some(SwalStatusCode::CiTestFail),
            312 => Some(SwalStatusCode::CiE2eFail),
            313 => Some(SwalStatusCode::CiCovDrop),
            400 => Some(SwalStatusCode::NodOnline),
            401 => Some(SwalStatusCode::NodDegraded),
            402 => Some(SwalStatusCode::NodStandby),
            410 => Some(SwalStatusCode::NetMeshSynced),
            411 => Some(SwalStatusCode::NetOffline),
            420 => Some(SwalStatusCode::MemXavierReady),
            421 => Some(SwalStatusCode::MemSyncPending),
            500 => Some(SwalStatusCode::IncSev0Critical),
            501 => Some(SwalStatusCode::IncSev1Blocker),
            502 => Some(SwalStatusCode::IncSev2Degraded),
            510 => Some(SwalStatusCode::SecLeakDetected),
            520 => Some(SwalStatusCode::OomCrash),
            801 => Some(SwalStatusCode::FeatDraft),
            802 => Some(SwalStatusCode::FeatBeta),
            803 => Some(SwalStatusCode::FeatPromoted),
            901 => Some(SwalStatusCode::SnpFlutterBgService),
            902 => Some(SwalStatusCode::SnpAtlasWsReconnect),
            903 => Some(SwalStatusCode::SnpRustCdylibCabi),
            904 => Some(SwalStatusCode::SnpIsarTransaction),
            905 => Some(SwalStatusCode::SnpE2ePlaywrightPwa),
            _ => None,
        }
    }

    /// Whether the state machine allows moving from `from` to `to`.
    pub fn can_transition(from: SwalStatusCode, to: SwalStatusCode) -> (r: bool)
        ensures
            r == transition_allowed(from, to),
    {
        match (from, to) {
            (SwalStatusCode::TskBacklog, SwalStatusCode::TskReady) => true,
            (SwalStatusCode::TskReady, SwalStatusCode::TskDispatched) => true,
            (SwalStatusCode::TskDispatched, SwalStatusCode::TskRunning) => true,
            (SwalStatusCode::TskRunning, SwalStatusCode::TskPaused) => true,
            (SwalStatusCode::TskPaused, SwalStatusCode::TskRunning) => true,
            (SwalStatusCode::TskRunning, SwalStatusCode::TskBlockedDep) => true,
            (SwalStatusCode::TskBlockedDep, SwalStatusCode::TskReady) => true,
            (SwalStatusCode::TskRunning, SwalStatusCode::TskBlockedAuth) => true,
            (SwalStatusCode::TskBlockedAuth, SwalStatusCode::TskRunning) => true,
            (SwalStatusCode::TskRunning, SwalStatusCode::TskInReview) => true,
            (SwalStatusCode::TskInReview, SwalStatusCode::TskCompleted) => true,
            (SwalStatusCode::TskInReview, SwalStatusCode::TskRunning) => true,
            (SwalStatusCode::TskRunning, SwalStatusCode::TskFailed) => true,
            (SwalStatusCode::TskRunning, SwalStatusCode::TskAborted) => true,
            (SwalStatusCode::TskRunning, SwalStatusCode::GitIslandLock) => true,
            (SwalStatusCode::GitIslandLock, SwalStatusCode::GitTreeDirty) => true,
            (SwalStatusCode::GitTreeDirty, SwalStatusCode::CiBuilding) => true,
            (SwalStatusCode::CiBuilding, SwalStatusCode::CiBuildOk) => true,
            (SwalStatusCode::CiBuilding, SwalStatusCode::CiBuildFail) => true,
            (SwalStatusCode::CiBuildFail, SwalStatusCode::GitTreeDirty) => true,
            (SwalStatusCode::CiBuildOk, SwalStatusCode::CiTestsPass) => true,
            (SwalStatusCode::CiBuildOk, SwalStatusCode::CiTestFail) => true,
            (SwalStatusCode::CiTestFail, SwalStatusCode::GitTreeDirty) => true,
            (SwalStatusCode::CiTestsPass, SwalStatusCode::GitCommitted) => true,
            (SwalStatusCode::GitCommitted, SwalStatusCode::GitPushed) => true,
            (SwalStatusCode::GitPushed, SwalStatusCode::TskInReview) => true,
            (SwalStatusCode::TskRunning, SwalStatusCode::IncSev0Critical) => true,
            (SwalStatusCode::TskRunning, SwalStatusCode::IncSev1Blocker) => true,
            (SwalStatusCode::TskRunning, SwalStatusCode::SecLeakDetected) => true,
            _ => false,
        }
    }
}

/// Round trip: every status is found again from its numeric code.
pub proof fn lemma_code_roundtrip(s: SwalStatusCode)
    ensures
        status_of_code(status_code(s)) == Some(s),
{
}

/// A numeric code names at most one status, and it is that status's code.
pub proof fn lemma_code_inverse(code: i64)
    ensures
        status_of_code(code) matches Some(s) ==> status_code(s) == code,
{
}

/// Completed, failed and aborted tasks have no way out.
pub proof fn lemma_terminal_statuses_are_final(to: SwalStatusCode)
    ensures
        !transition_allowed(SwalStatusCode::TskCompleted, to),
        !transition_allowed(SwalStatusCode::TskFailed, to),
        !transition_allowed(SwalStatusCode::TskAborted, to),
{
}

/// No status transitions to itself.
pub proof fn lemma_no_self_transition(s: SwalStatusCode)
    ensures
        !transition_allowed(s, s),
{
}

/// Completion is only reached from review: nothing else may jump to done.
pub proof fn lemma_completion_only_after_review(from: SwalStatusCode)
    ensures
        transition_allowed(from, SwalStatusCode::TskCompleted) <==> from == SwalStatusCode::TskInReview,
{
}


/// The character at `i`, or a space past the end.
pub open spec fn char_or_space(s: Seq<char>, i: int) -> char {
    if 0 <= i < s.len() { s[i] } else { ' ' }
}

/// The length and four characters of a slug, which tell every slug apart.
pub open spec fn slug_key(s: Seq<char>) -> (nat, char, char, char, char) {
    (s.len(), char_or_space(s, 0), char_or_space(s, 4), char_or_space(s, 8), char_or_space(s, 12))
}

/// The status whose slug has key `k`.
pub open spec fn status_of_slug_key(k: (nat, char, char, char, char)) -> Option<SwalStatusCode> {
    if k == (11nat, 'T', 'B', 'L', ' ') {
        Some(SwalStatusCode::TskBacklog)
    } else if k == (9nat, 'T', 'R', 'Y', ' ') {
        Some(SwalStatusCode::TskReady)
    } else if k == (14nat, 'T', 'D', 'A', 'E') {
        Some(SwalStatusCode::TskDispatched)
    } else if k == (11nat, 'T', 'R', 'I', ' ') {
        Some(SwalStatusCode::TskRunning)
    } else if k == (10nat, 'T', 'P', 'E', ' ') {
        Some(SwalStatusCode::TskPaused)
    } else if k == (15nat, 'T', 'B', 'K', 'D') {
        Some(SwalStatusCode::TskBlockedDep)
    } else if k == (16nat, 'T', 'B', 'K', 'A') {
        Some(SwalStatusCode::TskBlockedAuth)
    } else if k == (13nat, 'T', 'I', 'E', 'W') {
        Some(SwalStatusCode::TskInReview)
    } else if k == (13nat, 'T', 'C', 'L', 'D') {
        Some(SwalStatusCode::TskCompleted)
    } else if k == (10nat, 'T', 'F', 'E', ' ') {
        Some(SwalStatusCode::TskFailed)
    } else if k == (11nat, 'T', 'A', 'T', ' ') {
        Some(SwalStatusCode::TskAborted)
    } else if k == (15nat, 'G', 'I', 'N', 'O') {
        Some(SwalStatusCode::GitIslandLock)
    } else if k == (15nat, 'G', 'B', 'C', 'N') {
        Some(SwalStatusCode::GitBranchInit)
    } else if k == (14nat, 'G', 'T', '_', 'T') {
        Some(SwalStatusCode::GitTreeDirty)
    } else if k == (13nat, 'G', 'C', 'I', 'D') {
        Some(SwalStatusCode::GitCommitted)
    } else if k == (10nat, 'G', 'P', 'E', ' ') {
        Some(SwalStatusCode::GitPushed)
    } else if k == (13nat, 'G', 'P', 'P', 'D') {
        Some(SwalStatusCode::GitPrOpened)
    } else if k == (13nat, 'G', 'P', 'E', 'W') {
        Some(SwalStatusCode::GitPrReview)
    } else if k == (10nat, 'G', 'M', 'E', ' ') {
        Some(SwalStatusCode::GitMerged)
    } else if k == (12nat, 'G', 'C', 'L', ' ') {
        Some(SwalStatusCode::GitConflict)
    } else if k == (17nat, 'G', 'I', 'N', 'R') {
        Some(SwalStatusCode::GitIslandBreach)
    } else if k == (9nat, 'C', 'U', 'D', ' ') {
        Some(SwalStatusCode::CiQueued)
    } else if k == (11nat, 'C', 'U', 'I', ' ') {
        Some(SwalStatusCode::CiBuilding)
    } else if k == (11nat, 'C', 'U', '_', ' ') {
        Some(SwalStatusCode::CiBuildOk)
    } else if k == (13nat, 'C', 'E', '_', 'S') {
        Some(SwalStatusCode::CiTestsPass)
    } else if k == (15nat, 'C', 'E', 'Y', 'S') {
        Some(SwalStatusCode::CiDeployedStg)
    } else if k == (15nat, 'C', 'E', 'Y', 'P') {
        Some(SwalStatusCode::CiDeployedPrd)
    } else if k == (13nat, 'C', 'U', '_', 'L') {
        Some(SwalStatusCode::CiBuildFail)
    } else if k == (12nat, 'C', 'E', 'F', ' ') {
        Some(SwalStatusCode::CiTestFail)
    } else if k == (11nat, 'C', '2', 'A', ' ') {
        Some(SwalStatusCode::CiE2eFail)
    } else if k == (11nat, 'C', 'O', 'R', ' ') {
        Some(SwalStatusCode::CiCovDrop)
    } else if k == (10nat, 'N', 'O', 'N', ' ') {
        Some(SwalStatusCode::NodOnline)
    } else if k == (12nat, 'N', 'D', 'A', ' ') {
        Some(SwalStatusCode::NodDegraded)
    } else if k == (11nat, 'N', 'S', 'D', ' ') {
        Some(SwalStatusCode::NodStandby)
    } else if k == (15nat, 'N', 'M', '_', 'C') {
        Some(SwalStatusCode::NetMeshSynced)
    } else if k == (11nat, 'N', 'O', 'I', ' ') {
        Some(SwalStatusCode::NetOffline)
    } else if k == (16nat, 'M', 'X', 'E', 'E') {
        Some(SwalStatusCode::MemXavierReady)
    } else if k == (16nat, 'M', 'S', '_', 'D') {
        Some(SwalStatusCode::MemSyncPending)
    } else if k == (17nat, 'I', 'S', '_', 'T') {
        Some(SwalStatusCode::IncSev0Critical)
    } else if k == (16nat, 'I', 'S', '_', 'C') {
        Some(SwalStatusCode::IncSev1Blocker)
    } else if k == (17nat, 'I', 'S', '_', 'R') {
        Some(SwalStatusCode::IncSev2Degraded)
    } else if k == (17nat, 'S', 'L', '_', 'E') {
        Some(SwalStatusCode::SecLeakDetected)
    } else if k == (9nat, 'O', 'C', 'H', ' ') {
        Some(SwalStatusCode::OomCrash)
    } else if k == (10nat, 'F', '_', 'F', ' ') {
        Some(SwalStatusCode::FeatDraft)
    } else if k == (9nat, 'F', '_', 'A', ' ') {
        Some(SwalStatusCode::FeatBeta)
    } else if k == (13nat, 'F', '_', 'M', 'D') {
        Some(SwalStatusCode::FeatPromoted)
    } else if k == (22nat, 'S', 'F', 'T', 'B') {
        Some(SwalStatusCode::SnpFlutterBgService)
    } else if k == (22nat, 'S', 'A', 'S', '_') {
        Some(SwalStatusCode::SnpAtlasWsReconnect)
    } else if k == (20nat, 'S', 'R', '_', 'L') {
        Some(SwalStatusCode::SnpRustCdylibCabi)
    } else if k == (20nat, 'S', 'I', '_', 'N') {
        Some(SwalStatusCode::SnpIsarTransaction)
    } else if k == (22nat, 'S', 'E', 'P', 'W') {
        Some(SwalStatusCode::SnpE2ePlaywrightPwa)
    } else {
        None
    }
}

proof fn lemma_slug_key(s: SwalStatusCode)
    ensures
        status_of_slug_key(slug_key(status_slug(s))) == Some(s),
{
    match s {
        SwalStatusCode::TskBacklog => {
            reveal_strlit("TSK_BACKLOG");
        },
        SwalStatusCode::TskReady => {
            reveal_strlit("TSK_READY");
        },
        SwalStatusCode::TskDispatched => {
            reveal_strlit("TSK_DISPATCHED");
        },
        SwalStatusCode::TskRunning => {
            reveal_strlit("TSK_RUNNING");
        },
        SwalStatusCode::TskPaused => {
            reveal_strlit("TSK_PAUSED");
        },
        SwalStatusCode::TskBlockedDep => {
            reveal_strlit("TSK_BLOCKED_DEP");
        },
        SwalStatusCode::TskBlockedAuth => {
            reveal_strlit("TSK_BLOCKED_AUTH");
        },
        SwalStatusCode::TskInReview => {
            reveal_strlit("TSK_IN_REVIEW");
        },
        SwalStatusCode::TskCompleted => {
            reveal_strlit("TSK_COMPLETED");
        },
        SwalStatusCode::TskFailed => {
            reveal_strlit("TSK_FAILED");
        },
        SwalStatusCode::TskAborted => {
            reveal_strlit("TSK_ABORTED");
        },
        SwalStatusCode::GitIslandLock => {
            reveal_strlit("GIT_ISLAND_LOCK");
        },
        SwalStatusCode::GitBranchInit => {
            reveal_strlit("GIT_BRANCH_INIT");
        },
        SwalStatusCode::GitTreeDirty => {
            reveal_strlit("GIT_TREE_DIRTY");
        },
        SwalStatusCode::GitCommitted => {
            reveal_strlit("GIT_COMMITTED");
        },
        SwalStatusCode::GitPushed => {
            reveal_strlit("GIT_PUSHED");
        },
        SwalStatusCode::GitPrOpened => {
            reveal_strlit("GIT_PR_OPENED");
        },
        SwalStatusCode::GitPrReview => {
            reveal_strlit("GIT_PR_REVIEW");
        },
        SwalStatusCode::GitMerged => {
            reveal_strlit("GIT_MERGED");
        },
        SwalStatusCode::GitConflict => {
            reveal_strlit("GIT_CONFLICT");
        },
        SwalStatusCode::GitIslandBreach => {
            reveal_strlit("GIT_ISLAND_BREACH");
        },
        SwalStatusCode::CiQueued => {
            reveal_strlit("CI_QUEUED");
        },
        SwalStatusCode::CiBuilding => {
            reveal_strlit("CI_BUILDING");
        },
        SwalStatusCode::CiBuildOk => {
            reveal_strlit("CI_BUILD_OK");
        },
        SwalStatusCode::CiTestsPass => {
            reveal_strlit("CI_TESTS_PASS");
        },
        SwalStatusCode::CiDeployedStg => {
            reveal_strlit("CI_DEPLOYED_STG");
        },
        SwalStatusCode::CiDeployedPrd => {
            reveal_strlit("CI_DEPLOYED_PRD");
        },
        SwalStatusCode::CiBuildFail => {
            reveal_strlit("CI_BUILD_FAIL");
        },
        SwalStatusCode::CiTestFail => {
            reveal_strlit("CI_TEST_FAIL");
        },
        SwalStatusCode::CiE2eFail => {
            reveal_strlit("CI_E2E_FAIL");
        },
        SwalStatusCode::CiCovDrop => {
            reveal_strlit("CI_COV_DROP");
        },
        SwalStatusCode::NodOnline => {
            reveal_strlit("NOD_ONLINE");
        },
        SwalStatusCode::NodDegraded => {
            reveal_strlit("NOD_DEGRADED");
        },
        SwalStatusCode::NodStandby => {
            reveal_strlit("NOD_STANDBY");
        },
        SwalStatusCode::NetMeshSynced => {
            reveal_strlit("NET_MESH_SYNCED");
        },
        SwalStatusCode::NetOffline => {
            reveal_strlit("NET_OFFLINE");
        },
        SwalStatusCode::MemXavierReady => {
            reveal_strlit("MEM_XAVIER_READY");
        },
        SwalStatusCode::MemSyncPending => {
            reveal_strlit("MEM_SYNC_PENDING");
        },
        SwalStatusCode::IncSev0Critical => {
            reveal_strlit("INC_SEV0_CRITICAL");
        },
        SwalStatusCode::IncSev1Blocker => {
            reveal_strlit("INC_SEV1_BLOCKER");
        },
        SwalStatusCode::IncSev2Degraded => {
            reveal_strlit("INC_SEV2_DEGRADED");
        },
        SwalStatusCode::SecLeakDetected => {
            reveal_strlit("SEC_LEAK_DETECTED");
        },
        SwalStatusCode::OomCrash => {
            reveal_strlit("OOM_CRASH");
        },
        SwalStatusCode::FeatDraft => {
            reveal_strlit("FEAT_DRAFT");
        },
        SwalStatusCode::FeatBeta => {
            reveal_strlit("FEAT_BETA");
        },
        SwalStatusCode::FeatPromoted => {
            reveal_strlit("FEAT_PROMOTED");
        },
        SwalStatusCode::SnpFlutterBgService => {
            reveal_strlit("SNP_FLUTTER_BG_SERVICE");
        },
        SwalStatusCode::SnpAtlasWsReconnect => {
            reveal_strlit("SNP_ATLAS_WS_RECONNECT");
        },
        SwalStatusCode::SnpRustCdylibCabi => {
            reveal_strlit("SNP_RUST_CDYLIB_CABI");
        },
        SwalStatusCode::SnpIsarTransaction => {
            reveal_strlit("SNP_ISAR_TRANSACTION");
        },
        SwalStatusCode::SnpE2ePlaywrightPwa => {
            reveal_strlit("SNP_E2E_PLAYWRIGHT_PWA");
        },
    }
}

/// Slugs are distinct: two different statuses never share one.
pub proof fn lemma_slugs_distinct(a: SwalStatusCode, b: SwalStatusCode)
    requires
        a != b,
    ensures
        status_slug(a) != status_slug(b),
{
    lemma_slug_key(a);
    lemma_slug_key(b);
}

/// The slug prefix that a numeric code range carries: 1xx `TSK_`, 2xx
/// `GIT_`, 3xx `CI_`, 40x `NOD_`, 41x `NET_`, 42x-49x `MEM_`, 50x `INC_`,
/// 51x `SEC_`, 52x-59x `OOM_`, 8xx `FEAT_`, 9xx `SNP_`.
pub open spec fn range_prefix(code: i64) -> Seq<char> {
    if 100 <= code < 200 {
        "TSK_"@
    } else if 200 <= code < 300 {
        "GIT_"@
    } else if 300 <= code < 400 {
        "CI_"@
    } else if 400 <= code < 410 {
        "NOD_"@
    } else if 410 <= code < 420 {
        "NET_"@
    } else if 420 <= code < 500 {
        "MEM_"@
    } else if 500 <= code < 510 {
        "INC_"@
    } else if 510 <= code < 520 {
        "SEC_"@
    } else if 520 <= code < 600 {
        "OOM_"@
    } else if 800 <= code < 900 {
        "FEAT_"@
    } else if 900 <= code < 1000 {
        "SNP_"@
    } else {
        Seq::empty()
    }
}

/// Every slug starts with the prefix of its code's range.
pub proof fn lemma_slug_prefix_follows_code(s: SwalStatusCode)
    ensures
        range_prefix(status_code(s)).len() > 0,
        status_slug(s).take(range_prefix(status_code(s)).len() as int) == range_prefix(status_code(s)),
{
    match s {
        SwalStatusCode::TskBacklog => {
            reveal_strlit("TSK_BACKLOG");
            reveal_strlit("TSK_");
            assert("TSK_BACKLOG"@.take(4) =~= "TSK_"@);
        },
        SwalStatusCode::TskReady => {
            reveal_strlit("TSK_READY");
            reveal_strlit("TSK_");
            assert("TSK_READY"@.take(4) =~= "TSK_"@);
        },
        SwalStatusCode::TskDispatched => {
            reveal_strlit("TSK_DISPATCHED");
            reveal_strlit("TSK_");
            assert("TSK_DISPATCHED"@.take(4) =~= "TSK_"@);
        },
        SwalStatusCode::TskRunning => {
            reveal_strlit("TSK_RUNNING");
            reveal_strlit("TSK_");
            assert("TSK_RUNNING"@.take(4) =~= "TSK_"@);
        },
        SwalStatusCode::TskPaused => {
            reveal_strlit("TSK_PAUSED");
            reveal_strlit("TSK_");
            assert("TSK_PAUSED"@.take(4) =~= "TSK_"@);
        },
        SwalStatusCode::TskBlockedDep => {
            reveal_strlit("TSK_BLOCKED_DEP");
            reveal_strlit("TSK_");
            assert("TSK_BLOCKED_DEP"@.take(4) =~= "TSK_"@);
        },
        SwalStatusCode::TskBlockedAuth => {
            reveal_strlit("TSK_BLOCKED_AUTH");
            reveal_strlit("TSK_");
            assert("TSK_BLOCKED_AUTH"@.take(4) =~= "TSK_"@);
        },
        SwalStatusCode::TskInReview => {
            reveal_strlit("TSK_IN_REVIEW");
            reveal_strlit("TSK_");
            assert("TSK_IN_REVIEW"@.take(4) =~= "TSK_"@);
        },
        SwalStatusCode::TskCompleted => {
            reveal_strlit("TSK_COMPLETED");
            reveal_strlit("TSK_");
            assert("TSK_COMPLETED"@.take(4) =~= "TSK_"@);
        },
        SwalStatusCode::TskFailed => {
            reveal_strlit("TSK_FAILED");
            reveal_strlit("TSK_");
            assert("TSK_FAILED"@.take(4) =~= "TSK_"@);
        },
        SwalStatusCode::TskAborted => {
            reveal_strlit("TSK_ABORTED");
            reveal_strlit("TSK_");
            assert("TSK_ABORTED"@.take(4) =~= "TSK_"@);
        },
        SwalStatusCode::GitIslandLock => {
            reveal_strlit("GIT_ISLAND_LOCK");
            reveal_strlit("GIT_");
            assert("GIT_ISLAND_LOCK"@.take(4) =~= "GIT_"@);
        },
        SwalStatusCode::GitBranchInit => {
            reveal_strlit("GIT_BRANCH_INIT");
            reveal_strlit("GIT_");
            assert("GIT_BRANCH_INIT"@.take(4) =~= "GIT_"@);
        },
        SwalStatusCode::GitTreeDirty => {
            reveal_strlit("GIT_TREE_DIRTY");
            reveal_strlit("GIT_");
            assert("GIT_TREE_DIRTY"@.take(4) =~= "GIT_"@);
        },
        SwalStatusCode::GitCommitted => {
            reveal_strlit("GIT_COMMITTED");
            reveal_strlit("GIT_");
            assert("GIT_COMMITTED"@.take(4) =~= "GIT_"@);
        },
        SwalStatusCode::GitPushed => {
            reveal_strlit("GIT_PUSHED");
            reveal_strlit("GIT_");
            assert("GIT_PUSHED"@.take(4) =~= "GIT_"@);
        },
        SwalStatusCode::GitPrOpened => {
            reveal_strlit("GIT_PR_OPENED");
            reveal_strlit("GIT_");
            assert("GIT_PR_OPENED"@.take(4) =~= "GIT_"@);
        },
        SwalStatusCode::GitPrReview => {
            reveal_strlit("GIT_PR_REVIEW");
            reveal_strlit("GIT_");
            assert("GIT_PR_REVIEW"@.take(4) =~= "GIT_"@);
        },
        SwalStatusCode::GitMerged => {
            reveal_strlit("GIT_MERGED");
            reveal_strlit("GIT_");
            assert("GIT_MERGED"@.take(4) =~= "GIT_"@);
        },
        SwalStatusCode::GitConflict => {
            reveal_strlit("GIT_CONFLICT");
            reveal_strlit("GIT_");
            assert("GIT_CONFLICT"@.take(4) =~= "GIT_"@);
        },
        SwalStatusCode::GitIslandBreach => {
            reveal_strlit("GIT_ISLAND_BREACH");
            reveal_strlit("GIT_");
            assert("GIT_ISLAND_BREACH"@.take(4) =~= "GIT_"@);
        },
        SwalStatusCode::CiQueued => {
            reveal_strlit("CI_QUEUED");
            reveal_strlit("CI_");
            assert("CI_QUEUED"@.take(3) =~= "CI_"@);
        },
        SwalStatusCode::CiBuilding => {
            reveal_strlit("CI_BUILDING");
            reveal_strlit("CI_");
            assert("CI_BUILDING"@.take(3) =~= "CI_"@);
        },
        SwalStatusCode::CiBuildOk => {
            reveal_strlit("CI_BUILD_OK");
            reveal_strlit("CI_");
            assert("CI_BUILD_OK"@.take(3) =~= "CI_"@);
        },
        SwalStatusCode::CiTestsPass => {
            reveal_strlit("CI_TESTS_PASS");
            reveal_strlit("CI_");
            assert("CI_TESTS_PASS"@.take(3) =~= "CI_"@);
        },
        SwalStatusCode::CiDeployedStg => {
            reveal_strlit("CI_DEPLOYED_STG");
            reveal_strlit("CI_");
            assert("CI_DEPLOYED_STG"@.take(3) =~= "CI_"@);
        },
        SwalStatusCode::CiDeployedPrd => {
            reveal_strlit("CI_DEPLOYED_PRD");
            reveal_strlit("CI_");
            assert("CI_DEPLOYED_PRD"@.take(3) =~= "CI_"@);
        },
        SwalStatusCode::CiBuildFail => {
            reveal_strlit("CI_BUILD_FAIL");
            reveal_strlit("CI_");
            assert("CI_BUILD_FAIL"@.take(3) =~= "CI_"@);
        },
        SwalStatusCode::CiTestFail => {
            reveal_strlit("CI_TEST_FAIL");
            reveal_strlit("CI_");
            assert("CI_TEST_FAIL"@.take(3) =~= "CI_"@);
        },
        SwalStatusCode::CiE2eFail => {
            reveal_strlit("CI_E2E_FAIL");
            reveal_strlit("CI_");
            assert("CI_E2E_FAIL"@.take(3) =~= "CI_"@);
        },
        SwalStatusCode::CiCovDrop => {
            reveal_strlit("CI_COV_DROP");
            reveal_strlit("CI_");
            assert("CI_COV_DROP"@.take(3) =~= "CI_"@);
        },
        SwalStatusCode::NodOnline => {
            reveal_strlit("NOD_ONLINE");
            reveal_strlit("NOD_");
            assert("NOD_ONLINE"@.take(4) =~= "NOD_"@);
        },
        SwalStatusCode::NodDegraded => {
            reveal_strlit("NOD_DEGRADED");
            reveal_strlit("NOD_");
            assert("NOD_DEGRADED"@.take(4) =~= "NOD_"@);
        },
        SwalStatusCode::NodStandby => {
            reveal_strlit("NOD_STANDBY");
            reveal_strlit("NOD_");
            assert("NOD_STANDBY"@.take(4) =~= "NOD_"@);
        },
        SwalStatusCode::NetMeshSynced => {
            reveal_strlit("NET_MESH_SYNCED");
            reveal_strlit("NET_");
            assert("NET_MESH_SYNCED"@.take(4) =~= "NET_"@);
        },
        SwalStatusCode::NetOffline => {
            reveal_strlit("NET_OFFLINE");
            reveal_strlit("NET_");
            assert("NET_OFFLINE"@.take(4) =~= "NET_"@);
        },
        SwalStatusCode::MemXavierReady => {
            reveal_strlit("MEM_XAVIER_READY");
            reveal_strlit("MEM_");
            assert("MEM_XAVIER_READY"@.take(4) =~= "MEM_"@);
        },
        SwalStatusCode::MemSyncPending => {
            reveal_strlit("MEM_SYNC_PENDING");
            reveal_strlit("MEM_");
            assert("MEM_SYNC_PENDING"@.take(4) =~= "MEM_"@);
        },
        SwalStatusCode::IncSev0Critical => {
            reveal_strlit("INC_SEV0_CRITICAL");
            reveal_strlit("INC_");
            assert("INC_SEV0_CRITICAL"@.take(4) =~= "INC_"@);
        },
        SwalStatusCode::IncSev1Blocker => {
            reveal_strlit("INC_SEV1_BLOCKER");
            reveal_strlit("INC_");
            assert("INC_SEV1_BLOCKER"@.take(4) =~= "INC_"@);
        },
        SwalStatusCode::IncSev2Degraded => {
            reveal_strlit("INC_SEV2_DEGRADED");
            reveal_strlit("INC_");
            assert("INC_SEV2_DEGRADED"@.take(4) =~= "INC_"@);
        },
        SwalStatusCode::SecLeakDetected => {
            reveal_strlit("SEC_LEAK_DETECTED");
            reveal_strlit("SEC_");
            assert("SEC_LEAK_DETECTED"@.take(4) =~= "SEC_"@);
        },
        SwalStatusCode::OomCrash => {
            reveal_strlit("OOM_CRASH");
            reveal_strlit("OOM_");
            assert("OOM_CRASH"@.take(4) =~= "OOM_"@);
        },
        SwalStatusCode::FeatDraft => {
            reveal_strlit("FEAT_DRAFT");
            reveal_strlit("FEAT_");
            assert("FEAT_DRAFT"@.take(5) =~= "FEAT_"@);
        },
        SwalStatusCode::FeatBeta => {
            reveal_strlit("FEAT_BETA");
            reveal_strlit("FEAT_");
            assert("FEAT_BETA"@.take(5) =~= "FEAT_"@);
        },
        SwalStatusCode::FeatPromoted => {
            reveal_strlit("FEAT_PROMOTED");
            reveal_strlit("FEAT_");
            assert("FEAT_PROMOTED"@.take(5) =~= "FEAT_"@);
        },
        SwalStatusCode::SnpFlutterBgService => {
            reveal_strlit("SNP_FLUTTER_BG_SERVICE");
            reveal_strlit("SNP_");
            assert("SNP_FLUTTER_BG_SERVICE"@.take(4) =~= "SNP_"@);
        },
        SwalStatusCode::SnpAtlasWsReconnect => {
            reveal_strlit("SNP_ATLAS_WS_RECONNECT");
            reveal_strlit("SNP_");
            assert("SNP_ATLAS_WS_RECONNECT"@.take(4) =~= "SNP_"@);
        },
        SwalStatusCode::SnpRustCdylibCabi => {
            reveal_strlit("SNP_RUST_CDYLIB_CABI");
            reveal_strlit("SNP_");
            assert("SNP_RUST_CDYLIB_CABI"@.take(4) =~= "SNP_"@);
        },
        SwalStatusCode::SnpIsarTransaction => {
            reveal_strlit("SNP_ISAR_TRANSACTION");
            reveal_strlit("SNP_");
            assert("SNP_ISAR_TRANSACTION"@.take(4) =~= "SNP_"@);
        },
        SwalStatusCode::SnpE2ePlaywrightPwa => {
            reveal_strlit("SNP_E2E_PLAYWRIGHT_PWA");
            reveal_strlit("SNP_");
            assert("SNP_E2E_PLAYWRIGHT_PWA"@.take(4) =~= "SNP_"@);
        },
    }
}

/// A running task can reach each of its outcomes directly: failure,
/// abort, review, pause, either block, the git island and the incidents.
pub proof fn lemma_running_outcomes()
    ensures
        transition_allowed(SwalStatusCode::TskRunning, SwalStatusCode::TskFailed),
        transition_allowed(SwalStatusCode::TskRunning, SwalStatusCode::TskAborted),
        transition_allowed(SwalStatusCode::TskRunning, SwalStatusCode::TskInReview),
        transition_allowed(SwalStatusCode::TskRunning, SwalStatusCode::TskPaused),
        transition_allowed(SwalStatusCode::TskRunning, SwalStatusCode::TskBlockedDep),
        transition_allowed(SwalStatusCode::TskRunning, SwalStatusCode::TskBlockedAuth),
        transition_allowed(SwalStatusCode::TskRunning, SwalStatusCode::GitIslandLock),
        transition_allowed(SwalStatusCode::TskRunning, SwalStatusCode::IncSev0Critical),
        transition_allowed(SwalStatusCode::TskRunning, SwalStatusCode::IncSev1Blocker),
        transition_allowed(SwalStatusCode::TskRunning, SwalStatusCode::SecLeakDetected),
        !transition_allowed(SwalStatusCode::TskRunning, SwalStatusCode::TskCompleted),
{
}

/// The task lifecycle: backlog to ready to dispatched to running, and from
/// review to done; paused, blocked and reviewed work resumes; every
/// terminal task status is reachable from the backlog.
pub proof fn lemma_task_lifecycle_paths()
    ensures
        transition_allowed(SwalStatusCode::TskBacklog, SwalStatusCode::TskReady),
        transition_allowed(SwalStatusCode::TskReady, SwalStatusCode::TskDispatched),
        transition_allowed(SwalStatusCode::TskDispatched, SwalStatusCode::TskRunning),
        transition_allowed(SwalStatusCode::TskInReview, SwalStatusCode::TskCompleted),
        transition_allowed(SwalStatusCode::TskInReview, SwalStatusCode::TskRunning),
        transition_allowed(SwalStatusCode::TskPaused, SwalStatusCode::TskRunning),
        transition_allowed(SwalStatusCode::TskBlockedDep, SwalStatusCode::TskReady),
        transition_allowed(SwalStatusCode::TskBlockedAuth, SwalStatusCode::TskRunning),
{
}

/// The change pipeline: island lock, dirty tree, build, tests, commit,
/// push, review; a failed build or failed tests go back to the dirty tree.
pub proof fn lemma_change_pipeline_paths()
    ensures
        transition_allowed(SwalStatusCode::GitIslandLock, SwalStatusCode::GitTreeDirty),
        transition_allowed(SwalStatusCode::GitTreeDirty, SwalStatusCode::CiBuilding),
        transition_allowed(SwalStatusCode::CiBuilding, SwalStatusCode::CiBuildOk),
        transition_allowed(SwalStatusCode::CiBuilding, SwalStatusCode::CiBuildFail),
        transition_allowed(SwalStatusCode::CiBuildFail, SwalStatusCode::GitTreeDirty),
        transition_allowed(SwalStatusCode::CiBuildOk, SwalStatusCode::CiTestsPass),
        transition_allowed(SwalStatusCode::CiBuildOk, SwalStatusCode::CiTestFail),
        transition_allowed(SwalStatusCode::CiTestFail, SwalStatusCode::GitTreeDirty),
        transition_allowed(SwalStatusCode::CiTestsPass, SwalStatusCode::GitCommitted),
        transition_allowed(SwalStatusCode::GitCommitted, SwalStatusCode::GitPushed),
        transition_allowed(SwalStatusCode::GitPushed, SwalStatusCode::TskInReview),
{
}

/// Exits are narrow: the backlog only becomes ready, a dependency block only
/// returns to ready, an auth block or a pause only resumes running, review
/// only completes or resumes, and nothing returns to the backlog.
pub proof fn lemma_narrow_exits(to: SwalStatusCode)
    ensures
        transition_allowed(SwalStatusCode::TskBacklog, to) ==> to == SwalStatusCode::TskReady,
        transition_allowed(SwalStatusCode::TskBlockedDep, to) ==> to == SwalStatusCode::TskReady,
        transition_allowed(SwalStatusCode::TskBlockedAuth, to) ==> to == SwalStatusCode::TskRunning,
        transition_allowed(SwalStatusCode::TskPaused, to) ==> to == SwalStatusCode::TskRunning,
        transition_allowed(SwalStatusCode::TskInReview, to) ==> to == SwalStatusCode::TskCompleted || to == SwalStatusCode::TskRunning,
        !transition_allowed(to, SwalStatusCode::TskBacklog),
{
}

} // verus!
