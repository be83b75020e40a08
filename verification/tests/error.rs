use anyhow::Context as _;
use rdp_client::error::Error;

/// The reason is at the bottom of the chain, and it is the part worth reading.
#[test]
fn the_whole_chain_is_kept() {
    let inner: anyhow::Result<()> = Err(anyhow::Error::msg("the logon attempt failed"));
    let err = inner.context("CredSSP").context("RDP negotiation").unwrap_err();
    assert_eq!(
        Error::from(err).to_string(),
        "RDP negotiation: CredSSP: the logon attempt failed"
    );
}
