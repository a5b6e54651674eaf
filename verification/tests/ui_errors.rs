use openpfe::json::Json;
use openpfe::llm::error::LlmError;
use openpfe::ui::error::ApiError;
use openpfe::ui::routes::{check_active_model, check_mcp_body, check_prompt};

#[test]
fn api_errors_carry_status_and_code() {
    let e = ApiError::invalid_request("bad".to_string());
    assert_eq!((e.status, e.code, e.message.as_str()), (400, "invalid_request", "bad"));
    let e = ApiError::not_found("gone".to_string());
    assert_eq!((e.status, e.code), (404, "not_found"));
    let e = ApiError::model_not_loaded("no model loaded".to_string());
    assert_eq!((e.status, e.code), (503, "model_not_loaded"));
    let e = ApiError::inference_busy();
    assert_eq!((e.status, e.code, e.message.as_str()), (503, "inference_busy", "inference busy"));
    let e = ApiError::internal("boom".to_string());
    assert_eq!((e.status, e.code), (500, "internal_error"));
}

#[test]
fn service_errors_map_to_replies() {
    assert_eq!(ApiError::from_llm(LlmError::Busy).code, "inference_busy");
    assert_eq!(ApiError::from_llm(LlmError::Engine("no model loaded".to_string())).code, "model_not_loaded");
    assert_eq!(ApiError::from_llm(LlmError::Io("disk".to_string())).status, 500);
    assert_eq!(ApiError::from_llm(LlmError::Verify("v".to_string())).status, 400);
    assert_eq!(ApiError::from_llm(LlmError::NotFound("n".to_string())).status, 404);
}

#[test]
fn request_checks() {
    assert!(check_active_model("test-model").is_ok());
    assert!(check_active_model("").is_err());
    assert!(check_prompt("hello").is_ok());
    assert!(check_prompt("").is_err());
    assert!(check_mcp_body(&Json::Object(vec![])).is_ok());
}
