//! Networking.

pub mod arp;
pub mod arp_laws;
pub mod arptest;
pub mod call_laws;
pub mod card;
pub mod config;
pub mod delivery_laws;
pub mod dhcp;
pub mod dhcp_client;
pub mod dhcp_client_laws;
pub mod dhcp_exchange_laws;
pub mod dhcp_laws;
pub mod e1000;
pub mod e1000_laws;
pub mod ether;
pub mod genet;
pub mod genet_laws;
pub mod genet_phy;
pub mod icmp;
pub mod ip;
pub mod link;
pub mod packet_laws;
pub mod rx_queue;
pub mod socket;
pub mod socket_laws;
pub mod socket_ops;
pub mod stack;
pub mod stack_laws;
pub mod tcp;
pub mod tcp_laws;
pub mod tcp_step_laws;
pub mod tcp_stream_laws;
pub mod tcp_table;
pub mod udp;
pub mod wire_laws;
