use theta::net::channel::{Channel, ChannelFrequency};
use theta::net::id::{ChannelId, GlobalChannelId};
use theta::net::provider::{is_valid, ChannelProvider, DefaultChannelProvider, ProviderView};

struct Table {
    channels: Vec<Channel>,
    names: Vec<(&'static str, u32)>,
}

impl ChannelProvider for Table {
    fn model(&self) -> ProviderView {
        unreachable!()
    }

    fn by_id(&self, id: ChannelId<GlobalChannelId>) -> Option<&Channel> {
        self.channels.get(id.0 as usize)
    }

    fn by_name(&self, name: &str) -> Option<ChannelId<GlobalChannelId>> {
        self.names.iter().find(|(n, _)| *n == name).map(|(_, id)| ChannelId::new(*id))
    }

    fn all(&self) -> Vec<(&str, ChannelId<GlobalChannelId>)> {
        self.names.iter().map(|(n, id)| (*n, ChannelId::new(*id))).collect()
    }
}

fn table(names: &[(&'static str, u32)]) -> Table {
    Table {
        channels: vec![Channel::new(ChannelFrequency::low()); 3],
        names: names.to_vec(),
    }
}

#[test]
fn provider_is_checked() {
    assert!(is_valid(&DefaultChannelProvider::new()));
    assert!(is_valid(&table(&[("__ack", 2), ("a", 0)])));
    assert!(!is_valid(&table(&[("a", 0)])));
    assert!(!is_valid(&table(&[("__ack", 0), ("a", 3)])));
    assert!(!is_valid(&table(&[("__ack", 0), ("a", 1), ("b", 1)])));
}
